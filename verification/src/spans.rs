//! From tainted ranges to dictionary candidates: adjacent ranges are merged
//! into maximal contiguous spans, and each span, as well as the hull of all
//! ranges, is cut out of the executed buffer.

use crate::cond::TagSeg;
use vstd::prelude::*;
use vstd::slice::{slice_subrange, slice_to_vec};

verus! {

/// Every range lies inside a buffer of `len` bytes and does not end before
/// it begins.
pub open spec fn ranges_within(segs: Seq<TagSeg>, len: int) -> bool {
    forall|i: int| 0 <= i < segs.len() ==> (#[trigger] segs[i]).begin <= segs[i].end <= len
}

/// Tests whether every range lies inside a buffer of `len` bytes.
pub fn ranges_fit(offsets: &Vec<TagSeg>, len: usize) -> (fit: bool)
    ensures
        fit == ranges_within(offsets@, len as int),
{
    let mut i: usize = 0;
    while i < offsets.len()
        invariant
            0 <= i <= offsets@.len(),
            ranges_within(offsets@.take(i as int), len as int),
        decreases offsets@.len() - i,
    {
        let seg = offsets[i];
        if seg.begin > seg.end || seg.end as usize > len {
            return false;
        }
        assert forall|k: int| 0 <= k < i + 1 implies (#[trigger] offsets@.take(i + 1)[k]).begin
            <= offsets@.take(i + 1)[k].end <= len by {
            if k < i {
                assert(offsets@.take(i + 1)[k] == offsets@.take(i as int)[k]);
            }
        }
        i = i + 1;
    }
    assert(offsets@.take(offsets@.len() as int) == offsets@);
    true
}

/// The maximal contiguous spans of `segs`, as `(begin, end)` pairs in the
/// order of their first range. A range that begins exactly where the range
/// before it in the list ends extends the span that range belongs to; any
/// other range opens a new span.
pub open spec fn merged_spans(segs: Seq<TagSeg>) -> Seq<(int, int)>
    decreases segs.len(),
{
    if segs.len() == 0 {
        Seq::empty()
    } else {
        let before = merged_spans(segs.drop_last());
        let seg = segs.last();
        if segs.len() >= 2 && segs[segs.len() - 2].end == seg.begin {
            before.update(before.len() - 1, (before.last().0, seg.end as int))
        } else {
            before.push((seg.begin as int, seg.end as int))
        }
    }
}

/// The hull of `segs`: the lowest begin and the highest end over all ranges,
/// or `None` when there is no range.
pub open spec fn hull(segs: Seq<TagSeg>) -> Option<(int, int)>
    decreases segs.len(),
{
    if segs.len() == 0 {
        None
    } else {
        let seg = segs.last();
        match hull(segs.drop_last()) {
            None => Some((seg.begin as int, seg.end as int)),
            Some((lo, hi)) => Some(
                (
                    if seg.begin < lo {
                        seg.begin as int
                    } else {
                        lo
                    },
                    if seg.end > hi {
                        seg.end as int
                    } else {
                        hi
                    },
                ),
            ),
        }
    }
}

/// The bytes of `buf` that each span covers.
pub open spec fn span_words(spans: Seq<(int, int)>, buf: Seq<u8>) -> Seq<Seq<u8>> {
    Seq::new(spans.len(), |k: int| buf.subrange(spans[k].0, spans[k].1))
}

/// The word that the hull of `segs` covers, if the hull is not empty.
pub open spec fn hull_word(segs: Seq<TagSeg>, buf: Seq<u8>) -> Seq<Seq<u8>> {
    match hull(segs) {
        Some((lo, hi)) if lo < hi => seq![buf.subrange(lo, hi)],
        _ => Seq::empty(),
    }
}

/// The dictionary candidates of one record: the word under each merged span,
/// in span order, followed by the word under the hull when the hull is not
/// empty.
pub open spec fn candidate_words(segs: Seq<TagSeg>, buf: Seq<u8>) -> Seq<Seq<u8>> {
    span_words(merged_spans(segs), buf) + hull_word(segs, buf)
}

/// A prefix that ends on a span boundary contributes whole spans: the range
/// after it opens a new span.
proof fn lemma_span_opens(segs: Seq<TagSeg>, at: int)
    requires
        0 <= at < segs.len(),
        at > 0 ==> segs[at - 1].end != segs[at].begin,
    ensures
        merged_spans(segs.take(at + 1)) == merged_spans(segs.take(at)).push(
            (segs[at].begin as int, segs[at].end as int),
        ),
{
    assert(segs.take(at + 1).drop_last() == segs.take(at));
}

/// A range that begins where its predecessor ends extends the span that is
/// last so far.
proof fn lemma_span_extends(segs: Seq<TagSeg>, at: int)
    requires
        0 < at < segs.len(),
        segs[at - 1].end == segs[at].begin,
    ensures
        merged_spans(segs.take(at + 1)) == merged_spans(segs.take(at)).update(
            merged_spans(segs.take(at)).len() - 1,
            (merged_spans(segs.take(at)).last().0, segs[at].end as int),
        ),
{
    assert(segs.take(at + 1).drop_last() == segs.take(at));
}

/// Ranges inside a buffer merge into spans inside the buffer, and the last
/// span ends where the last range ends.
pub proof fn lemma_spans_within(segs: Seq<TagSeg>, len: int)
    requires
        ranges_within(segs, len),
    ensures
        forall|k: int|
            0 <= k < merged_spans(segs).len() ==> 0 <= (#[trigger] merged_spans(segs)[k]).0
                <= merged_spans(segs)[k].1 <= len && merged_spans(segs)[k].1 <= u32::MAX,
        segs.len() > 0 ==> merged_spans(segs).len() > 0 && merged_spans(segs).last().1
            == segs.last().end,
    decreases segs.len(),
{
    if segs.len() > 0 {
        let front = segs.drop_last();
        assert forall|i: int| 0 <= i < front.len() implies (#[trigger] front[i]).begin
            <= front[i].end <= len by {
            assert(front[i] == segs[i]);
        }
        lemma_spans_within(front, len);
        let before = merged_spans(front);
        let spans = merged_spans(segs);
        let seg = segs.last();
        if segs.len() >= 2 {
            assert(front.last() == segs[segs.len() - 2]);
        }
        assert forall|k: int| 0 <= k < spans.len() implies 0 <= (#[trigger] spans[k]).0
            <= spans[k].1 <= len && spans[k].1 <= u32::MAX by {
            if k < before.len() - 1 {
                assert(spans[k] == before[k]);
            } else if k < before.len() {
                assert(before[k].0 <= before[k].1);
            }
        }
    }
}

/// The hull of ranges inside a buffer lies inside the buffer.
pub proof fn lemma_hull_within(segs: Seq<TagSeg>, len: int)
    requires
        ranges_within(segs, len),
    ensures
        match hull(segs) {
            Some((lo, hi)) => 0 <= lo <= hi <= len && hi <= u32::MAX,
            None => segs.len() == 0,
        },
    decreases segs.len(),
{
    if segs.len() > 0 {
        let front = segs.drop_last();
        assert forall|i: int| 0 <= i < front.len() implies (#[trigger] front[i]).begin
            <= front[i].end <= len by {
            assert(front[i] == segs[i]);
        }
        lemma_hull_within(front, len);
    }
}

/// Every candidate word of ranges inside the buffer is a piece of the
/// buffer, no longer than a range can be.
pub proof fn lemma_candidate_words_short(segs: Seq<TagSeg>, buf: Seq<u8>)
    requires
        ranges_within(segs, buf.len() as int),
    ensures
        forall|k: int|
            0 <= k < candidate_words(segs, buf).len() ==> (#[trigger] candidate_words(
                segs,
                buf,
            )[k]).len() <= u32::MAX,
{
    lemma_spans_within(segs, buf.len() as int);
    lemma_hull_within(segs, buf.len() as int);
    let spans = merged_spans(segs);
    let words = candidate_words(segs, buf);
    assert forall|k: int| 0 <= k < words.len() implies (#[trigger] words[k]).len()
        <= u32::MAX by {
        if k < spans.len() {
            assert(words[k] == buf.subrange(spans[k].0, spans[k].1));
        } else {
            assert(words[k] == hull_word(segs, buf)[k - spans.len()]);
        }
    }
}

/// The deep view of a list of byte strings holds the view of each string.
pub proof fn lemma_deep_view_words(words: Vec<Vec<u8>>)
    ensures
        words.deep_view().len() == words@.len(),
        forall|k: int| 0 <= k < words@.len() ==> #[trigger] words.deep_view()[k] == words@[k]@,
{
    assert forall|k: int| 0 <= k < words@.len() implies #[trigger] words.deep_view()[k]
        == words@[k]@ by {
        assert(words@[k].deep_view() =~= words@[k]@);
    }
}

/// Collects the dictionary candidates that the ranges `offsets` select from
/// the executed buffer `buf`.
pub fn collect_words(offsets: &Vec<TagSeg>, buf: &Vec<u8>) -> (words: Vec<Vec<u8>>)
    requires
        ranges_within(offsets@, buf@.len() as int),
    ensures
        words.deep_view() == candidate_words(offsets@, buf@),
{
    let mut words: Vec<Vec<u8>> = Vec::new();
    let ghost segs = offsets@;
    let mut i: usize = 0;
    while i < offsets.len()
        invariant
            segs == offsets@,
            ranges_within(segs, buf@.len() as int),
            0 <= i <= segs.len(),
            0 < i < segs.len() ==> segs[i - 1].end != segs[i as int].begin,
            words@.len() == merged_spans(segs.take(i as int)).len(),
            forall|k: int|
                0 <= k < words@.len() ==> (#[trigger] words@[k])@ == span_words(
                    merged_spans(segs.take(i as int)),
                    buf@,
                )[k],
        decreases segs.len() - i,
    {
        let idx: usize = i;
        let mut end: u32 = offsets[i].end;
        let mut j: usize = i + 1;
        proof {
            lemma_span_opens(segs, idx as int);
        }
        while j < offsets.len()
            invariant_except_break
                j == i + 1,
            invariant
                segs == offsets@,
                ranges_within(segs, buf@.len() as int),
                idx <= i < segs.len(),
                i < j <= segs.len(),
                end == segs[i as int].end,
                segs[idx as int].begin <= end,
                merged_spans(segs.take(i + 1)) == merged_spans(segs.take(idx as int)).push(
                    (segs[idx as int].begin as int, end as int),
                ),
            ensures
                i + 1 < segs.len() ==> segs[i as int].end != segs[i + 1].begin,
            decreases segs.len() - j,
        {
            if end != offsets[j].begin {
                break ;
            }
            proof {
                lemma_span_extends(segs, j as int);
            }
            end = offsets[j].end;
            i = j;
            j = j + 1;
        }
        let word = slice_to_vec(
            slice_subrange(buf.as_slice(), offsets[idx].begin as usize, end as usize),
        );
        proof {
            let before = merged_spans(segs.take(idx as int));
            let after = merged_spans(segs.take(i + 1));
            assert(after == before.push((segs[idx as int].begin as int, end as int)));
            assert forall|k: int| 0 <= k < before.len() implies span_words(after, buf@)[k]
                == span_words(before, buf@)[k] by {}
        }
        words.push(word);
        i = i + 1;
    }
    assert(segs.take(segs.len() as int) == segs);

    let mut min: usize = usize::MAX;
    let mut max: usize = 0;
    let mut k: usize = 0;
    while k < offsets.len()
        invariant
            segs == offsets@,
            ranges_within(segs, buf@.len() as int),
            0 <= k <= segs.len(),
            match hull(segs.take(k as int)) {
                None => min == usize::MAX && max == 0,
                Some((lo, hi)) => min == lo && max == hi && hi <= buf@.len(),
            },
        decreases segs.len() - k,
    {
        let offset = offsets[k];
        proof {
            assert(segs.take(k + 1).drop_last() == segs.take(k as int));
        }
        min = if min > offset.begin as usize {
            offset.begin as usize
        } else {
            min
        };
        max = if max < offset.end as usize {
            offset.end as usize
        } else {
            max
        };
        k = k + 1;
    }
    let ghost spans = span_words(merged_spans(segs), buf@);
    assert(words@.len() == spans.len());
    if min < max {
        let word = slice_to_vec(slice_subrange(buf.as_slice(), min, max));
        words.push(word);
    }
    proof {
        lemma_deep_view_words(words);
        assert(words.deep_view() =~= spans + hull_word(segs, buf@));
    }
    words
}

} // verus!
