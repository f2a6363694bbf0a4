//! The token dictionary: byte tokens harvested from comparison operands,
//! kept in buckets by length.

use crate::buckets::{
    map_clone, map_default, map_entries, map_get_index, map_get_mut, map_insert, map_is_empty,
    map_len, map_sort_keys,
};
use crate::cond::SCond;
use crate::decimal::{decimal, push_decimal};
use crate::model::{
    bucket_ok, buckets_wf, class_count, holds, insert_word, insert_words, is_bucket_list,
    keys_ascending, length_class,
    lemma_find_key, lemma_find_key_at, lemma_insert_word_wf, lemma_insert_words_grows,
    lemma_insert_words_wf, lemma_sorted_insert, token_count, Buckets,
};
use crate::spans::{
    candidate_words, collect_words, lemma_candidate_words_short, lemma_deep_view_words,
    ranges_fit, ranges_within,
};
use indexmap::IndexMap;
use vstd::prelude::*;
use vstd::string::StringExecFns;

verus! {

/// Every range of every record lies inside a buffer of `len` bytes.
pub open spec fn records_within(conds: Seq<SCond>, len: int) -> bool {
    forall|i: int| 0 <= i < conds.len() ==> ranges_within((#[trigger] conds[i]).offsets@, len)
}

/// Tests whether every range of every record lies inside a buffer of `len`
/// bytes, which is what `filter` asks of its records.
pub fn records_fit(conds: &Vec<SCond>, len: usize) -> (fit: bool)
    ensures
        fit == records_within(conds@, len as int),
{
    let mut i: usize = 0;
    while i < conds.len()
        invariant
            0 <= i <= conds@.len(),
            records_within(conds@.take(i as int), len as int),
        decreases conds@.len() - i,
    {
        if !ranges_fit(&conds[i].offsets, len) {
            return false;
        }
        assert forall|k: int| 0 <= k < i + 1 implies ranges_within(
            (#[trigger] conds@.take(i + 1)[k]).offsets@,
            len as int,
        ) by {
            if k < i {
                assert(conds@.take(i + 1)[k] == conds@.take(i as int)[k]);
            }
        }
        i = i + 1;
    }
    assert(conds@.take(conds@.len() as int) == conds@);
    true
}

/// The dictionary after the records `conds`, taken against the buffer `buf`,
/// were folded into it: record by record, each candidate word of a record is
/// offered in turn.
pub open spec fn fold_records(e: Buckets, conds: Seq<SCond>, buf: Seq<u8>) -> Buckets
    decreases conds.len(),
{
    if conds.len() == 0 {
        e
    } else {
        insert_words(
            fold_records(e, conds.drop_last(), buf),
            candidate_words(conds.last().offsets@, buf),
        )
    }
}

/// Folding records keeps a dictionary well-formed, and with it the
/// ascending order of its buckets.
pub proof fn lemma_fold_records_wf(e: Buckets, conds: Seq<SCond>, buf: Seq<u8>)
    requires
        buckets_wf(e),
        records_within(conds, buf.len() as int),
    ensures
        buckets_wf(fold_records(e, conds, buf)),
        keys_ascending(fold_records(e, conds, buf)),
    decreases conds.len(),
{
    if conds.len() > 0 {
        let front = conds.drop_last();
        assert forall|i: int| 0 <= i < front.len() implies ranges_within(
            (#[trigger] front[i]).offsets@,
            buf.len() as int,
        ) by {
            assert(front[i] == conds[i]);
        }
        lemma_fold_records_wf(e, front, buf);
        lemma_candidate_words_short(conds.last().offsets@, buf);
        lemma_insert_words_wf(
            fold_records(e, front, buf),
            candidate_words(conds.last().offsets@, buf),
        );
    }
}

/// A dictionary only grows: folding records never lowers the number of
/// tokens, and every token held before is held after.
pub proof fn lemma_fold_records_grows(
    e: Buckets,
    conds: Seq<SCond>,
    buf: Seq<u8>,
    token: Seq<u8>,
)
    requires
        buckets_wf(e),
        records_within(conds, buf.len() as int),
    ensures
        token_count(fold_records(e, conds, buf)) >= token_count(e),
        holds(e, token) ==> holds(fold_records(e, conds, buf), token),
    decreases conds.len(),
{
    if conds.len() > 0 {
        let front = conds.drop_last();
        assert forall|i: int| 0 <= i < front.len() implies ranges_within(
            (#[trigger] front[i]).offsets@,
            buf.len() as int,
        ) by {
            assert(front[i] == conds[i]);
        }
        lemma_fold_records_grows(e, front, buf, token);
        lemma_fold_records_wf(e, front, buf);
        lemma_candidate_words_short(conds.last().offsets@, buf);
        lemma_insert_words_grows(
            fold_records(e, front, buf),
            candidate_words(conds.last().offsets@, buf),
            token,
        );
    }
}

/// The dictionary after a sequence of `filter` calls, each with its records
/// and its buffer.
pub open spec fn fold_calls(e: Buckets, calls: Seq<(Seq<SCond>, Seq<u8>)>) -> Buckets
    decreases calls.len(),
{
    if calls.len() == 0 {
        e
    } else {
        fold_records(fold_calls(e, calls.drop_last()), calls.last().0, calls.last().1)
    }
}

/// The records of every call lie inside the buffer of that call.
pub open spec fn calls_within(calls: Seq<(Seq<SCond>, Seq<u8>)>) -> bool {
    forall|k: int|
        0 <= k < calls.len() ==> records_within((#[trigger] calls[k]).0, calls[k].1.len() as int)
}

/// Whatever the calls, a dictionary stays well-formed: after any sequence
/// of `filter` calls its buckets are in ascending order of length.
pub proof fn lemma_fold_calls_wf(e: Buckets, calls: Seq<(Seq<SCond>, Seq<u8>)>)
    requires
        buckets_wf(e),
        calls_within(calls),
    ensures
        buckets_wf(fold_calls(e, calls)),
        keys_ascending(fold_calls(e, calls)),
    decreases calls.len(),
{
    if calls.len() > 0 {
        let front = calls.drop_last();
        assert forall|k: int| 0 <= k < front.len() implies records_within(
            (#[trigger] front[k]).0,
            front[k].1.len() as int,
        ) by {
            assert(front[k] == calls[k]);
        }
        lemma_fold_calls_wf(e, front);
        lemma_fold_records_wf(fold_calls(e, front), calls.last().0, calls.last().1);
    }
}

/// Monotonic growth: over any sequence of `filter` calls the number of
/// tokens never falls from one call to a later one.
pub proof fn lemma_growth_is_monotonic(
    e: Buckets,
    calls: Seq<(Seq<SCond>, Seq<u8>)>,
    i: int,
    j: int,
)
    requires
        buckets_wf(e),
        calls_within(calls),
        0 <= i <= j <= calls.len(),
    ensures
        token_count(fold_calls(e, calls.take(i))) <= token_count(fold_calls(e, calls.take(j))),
    decreases j - i,
{
    if i < j {
        lemma_growth_is_monotonic(e, calls, i, j - 1);
        let front = calls.take(j - 1);
        assert(calls.take(j).drop_last() == front);
        assert forall|k: int| 0 <= k < front.len() implies records_within(
            (#[trigger] front[k]).0,
            front[k].1.len() as int,
        ) by {
            assert(front[k] == calls[k]);
        }
        lemma_fold_calls_wf(e, front);
        assert(calls.take(j).last() == calls[j - 1]);
        lemma_fold_records_grows(
            fold_calls(e, front),
            calls[j - 1].0,
            calls[j - 1].1,
            Seq::empty(),
        );
    }
}

/// The text of a histogram: the decimal numeral of each count, each followed
/// by a comma.
pub open spec fn render_counts(counts: Seq<nat>) -> Seq<char>
    decreases counts.len(),
{
    if counts.len() == 0 {
        Seq::empty()
    } else {
        render_counts(counts.drop_last()) + decimal(counts.last()) + seq![',']
    }
}

/// What the text of a histogram is, whatever the dictionary: eight counts,
/// each as a decimal numeral followed by a comma.
pub open spec fn is_histogram_text(text: Seq<char>) -> bool {
    exists|counts: Seq<nat>| counts.len() == 8 && #[trigger] render_counts(counts) == text
}

/// The eight token counts of a dictionary, one for each size class.
pub open spec fn histogram(e: Buckets) -> Seq<nat> {
    Seq::new(8, |class: int| class_count(e, class))
}

/// The position of the size class that a token length falls in.
fn class_of(len: usize) -> (class: Option<usize>)
    ensures
        match class {
            Some(c) => length_class(len) == Some(c as int) && c < 8,
            None => length_class(len) is None,
        },
{
    if len == 1 {
        Some(0)
    } else if len == 2 {
        Some(1)
    } else if len == 4 {
        Some(2)
    } else if len >= 4 && len <= 7 {
        Some(3)
    } else if len >= 8 && len <= 15 {
        Some(4)
    } else if len >= 16 && len <= 31 {
        Some(5)
    } else if len >= 32 && len <= 127 {
        Some(6)
    } else if len >= 128 {
        Some(7)
    } else {
        None
    }
}

/// Whether `bucket` holds a token equal to `word`.
fn bucket_contains(bucket: &Vec<Vec<u8>>, word: &Vec<u8>) -> (found: bool)
    ensures
        found == bucket.deep_view().contains(word@),
{
    proof {
        lemma_deep_view_words(*bucket);
    }
    let mut k: usize = 0;
    while k < bucket.len()
        invariant
            0 <= k <= bucket@.len(),
            bucket.deep_view().len() == bucket@.len(),
            forall|m: int|
                0 <= m < bucket@.len() ==> #[trigger] bucket.deep_view()[m] == bucket@[m]@,
            forall|m: int| 0 <= m < k ==> bucket.deep_view()[m] != word@,
        decreases bucket@.len() - k,
    {
        if bucket[k] == *word {
            assert(bucket@[k as int]@ =~= word@);
            assert(bucket.deep_view()[k as int] == word@);
            return true;
        }
        assert(bucket@[k as int]@ != word@);
        k = k + 1;
    }
    false
}

/// Offers one token to the map behind a dictionary.
fn offer(map: &mut IndexMap<usize, Vec<Vec<u8>>>, word: Vec<u8>)
    requires
        buckets_wf(map_entries(*old(map))),
    ensures
        map_entries(*final(map)) == insert_word(map_entries(*old(map)), word@),
        buckets_wf(map_entries(*final(map))),
{
    let ghost before = map_entries(*map);
    let len: usize = word.len();
    proof {
        lemma_insert_word_wf(before, word@);
    }
    match map_get_mut(map, &len) {
        Some(bucket) => {
            let ghost held = bucket.deep_view();
            let ghost at = choose|i: int|
                0 <= i < before.len() && (#[trigger] before[i]).0 == len && held == before[i].1;
            if !bucket_contains(bucket, &word) {
                let ghost shown = *bucket;
                bucket.push(word);
                proof {
                    lemma_deep_view_words(shown);
                    lemma_deep_view_words(*bucket);
                    assert(bucket.deep_view() =~= held.push(word@));
                }
            }
            proof {
                assert forall|i: int|
                    0 <= i < before.len() && (#[trigger] before[i]).0 == len implies i == at by {
                    if i < at {
                        assert(before[i].0 < before[at].0);
                    } else if at < i {
                        assert(before[at].0 < before[i].0);
                    }
                }
                lemma_find_key_at(before, len, at);
            }
        },
        None => {
            let mut fresh: Vec<Vec<u8>> = Vec::new();
            fresh.push(word);
            proof {
                lemma_deep_view_words(fresh);
                assert(fresh.deep_view() =~= seq![word@]);
            }
            let earlier = map_insert(map, len, fresh);
            map_sort_keys(map);
            proof {
                assert(earlier is None);
                lemma_find_key(before, len);
                lemma_sorted_insert(before, (len, seq![word@]), map_entries(*map));
            }
        },
    }
}

/// Offers each of `words` in turn to the map behind a dictionary.
fn offer_all(map: &mut IndexMap<usize, Vec<Vec<u8>>>, words: Vec<Vec<u8>>)
    requires
        buckets_wf(map_entries(*old(map))),
    ensures
        map_entries(*final(map)) == insert_words(map_entries(*old(map)), words.deep_view()),
        buckets_wf(map_entries(*final(map))),
{
    let ghost before = map_entries(*map);
    let ghost all = words.deep_view();
    proof {
        lemma_deep_view_words(words);
    }
    for word in it: words.into_iter()
        invariant
            it.seq().len() == all.len(),
            forall|k: int| 0 <= k < all.len() ==> (#[trigger] it.seq()[k])@ == all[k],
            map_entries(*map) == insert_words(before, all.take(it.index() as int)),
            buckets_wf(map_entries(*map)),
    {
        proof {
            let done = it.index() as int;
            assert(all.take(done + 1).drop_last() == all.take(done));
        }
        offer(map, word);
    }
    assert(all.take(all.len() as int) == all);
}

/// The tokens of a comparison-operand dictionary, in buckets by length.
///
/// The buckets ascend by length, and within a bucket the tokens keep the
/// order in which they first arrived.
#[derive(Debug)]
pub struct Dict(IndexMap<usize, Vec<Vec<u8>>>);

impl Clone for Dict {
    /// A dictionary with the same buckets.
    fn clone(&self) -> (dict: Dict)
        ensures
            dict@ == self@,
            dict.wf(),
    {
        proof {
            use_type_invariant(self);
        }
        Dict(map_clone(&self.0))
    }
}

impl Default for Dict {
    /// An empty dictionary.
    fn default() -> (dict: Dict)
        ensures
            dict@ == Seq::<(usize, Seq<Seq<u8>>)>::empty(),
            dict.wf(),
    {
        Dict::new()
    }
}

impl Dict {
    /// The buckets in index order.
    pub closed spec fn view(&self) -> Buckets {
        map_entries(self.0)
    }

    /// The dictionary's invariant: the buckets ascend by length, and no
    /// bucket is empty, holds a token twice, or holds a token of another
    /// length than its own.
    pub open spec fn wf(&self) -> bool {
        buckets_wf(self@)
    }

    /// Every dictionary is well-formed, at every moment at which it can be
    /// seen: also by the next holder of a lock whose last holder panicked.
    #[verifier::type_invariant]
    spec fn inv(&self) -> bool {
        buckets_wf(map_entries(self.0))
    }

    /// An empty dictionary.
    pub fn new() -> (dict: Dict)
        ensures
            dict@ == Seq::<(usize, Seq<Seq<u8>>)>::empty(),
            dict.wf(),
    {
        Dict(map_default())
    }

    /// Folds discovered-token records into the dictionary. For each record
    /// the ranges are merged into maximal contiguous spans; the bytes of
    /// `buf` under each span, and under the hull of all ranges, are offered
    /// as tokens. A token goes to the bucket of its length unless that
    /// bucket already holds it.
    ///
    /// The ranges must lie inside `buf`.
    ///
    /// While the tokens of a record are added, the buckets are held apart
    /// from the dictionary. A panic underway would so leave an empty
    /// dictionary behind, never one with its buckets out of order.
    pub fn filter(&mut self, conds: Vec<SCond>, buf: Vec<u8>)
        requires
            records_within(conds@, buf@.len() as int),
        ensures
            final(self).wf(),
            final(self)@ == fold_records(old(self)@, conds@, buf@),
            token_count(final(self)@) >= token_count(old(self)@),
    {
        let ghost before = self@;
        proof {
            use_type_invariant(&*self);
            lemma_fold_records_grows(before, conds@, buf@, Seq::empty());
        }
        let mut c: usize = 0;
        while c < conds.len()
            invariant
                records_within(conds@, buf@.len() as int),
                0 <= c <= conds@.len(),
                self.wf(),
                self@ == fold_records(before, conds@.take(c as int), buf@),
            decreases conds@.len() - c,
        {
            let words = collect_words(&conds[c].offsets, &buf);
            proof {
                assert(conds@.take(c + 1).drop_last() == conds@.take(c as int));
            }
            let mut buckets = map_default();
            std::mem::swap(&mut self.0, &mut buckets);
            offer_all(&mut buckets, words);
            self.0 = buckets;
            c = c + 1;
        }
        assert(conds@.take(conds@.len() as int) == conds@);
    }

    /// The tokens of the bucket at position `idx` of the ascending order of
    /// lengths, or no token when there are no more than `idx` buckets.
    pub fn get_list(&self, idx: usize) -> (list: Vec<Vec<u8>>)
        ensures
            list.deep_view() == if idx < self@.len() {
                self@[idx as int].1
            } else {
                Seq::<Seq<u8>>::empty()
            },
            is_bucket_list(list.deep_view()),
    {
        proof {
            use_type_invariant(self);
            if idx < self@.len() {
                assert(bucket_ok(self@[idx as int].0, self@[idx as int].1));
            }
        }
        match map_get_index(&self.0, idx) {
            Some(pair) => {
                let list = pair.1.clone();
                proof {
                    lemma_deep_view_words(list);
                    lemma_deep_view_words(*pair.1);
                    assert(list.deep_view() =~= pair.1.deep_view());
                }
                list
            },
            None => {
                let list: Vec<Vec<u8>> = Vec::new();
                assert(list.deep_view() =~= Seq::<Seq<u8>>::empty());
                list
            },
        }
    }

    /// Counts the tokens by size class. The counters are wide enough for
    /// any dictionary that memory can hold.
    pub fn length_histogram(&self) -> (counts: [u128; 8])
        ensures
            forall|class: int| 0 <= class < 8 ==> counts@[class] == class_count(self@, class),
    {
        let mut counts: [u128; 8] = [0u128; 8];
        let n: usize = map_len(&self.0);
        let mut i: usize = 0;
        while i < n
            invariant
                n == self@.len(),
                0 <= i <= n,
                forall|class: int|
                    0 <= class < 8 ==> counts@[class] == class_count(
                        self@.take(i as int),
                        class,
                    ) && counts@[class] <= i * usize::MAX,
            decreases n - i,
        {
            proof {
                assert(self@.take(i + 1).drop_last() == self@.take(i as int));
                assert((i + 1) * usize::MAX <= usize::MAX * usize::MAX) by (nonlinear_arith)
                    requires
                        i + 1 <= usize::MAX,
                ;
                assert(usize::MAX * usize::MAX <= 0xffff_ffff_ffff_ffff * 0xffff_ffff_ffff_ffff)
                    by (nonlinear_arith)
                    requires
                        0 <= usize::MAX <= 0xffff_ffff_ffff_ffff,
                ;
                assert((i + 1) * usize::MAX == i * usize::MAX + usize::MAX) by (nonlinear_arith);
            }
            match map_get_index(&self.0, i) {
                Some(pair) => {
                    let size: usize = pair.1.len();
                    proof {
                        lemma_deep_view_words(*pair.1);
                    }
                    match class_of(*pair.0) {
                        Some(class) => {
                            let grown: u128 = counts[class] + size as u128;
                            counts[class] = grown;
                        },
                        None => {},
                    }
                },
                None => {},
            }
            i = i + 1;
        }
        assert(self@.take(n as int) == self@);
        counts
    }

    /// The histogram of token lengths as text: the eight counts of
    /// `length_histogram` in order, each followed by a comma.
    pub fn get_len(&self) -> (text: String)
        ensures
            text@ == render_counts(histogram(self@)),
            is_histogram_text(text@),
    {
        let counts = self.length_histogram();
        let ghost all = histogram(self@);
        let mut text = String::new();
        let mut i: usize = 0;
        while i < 8
            invariant
                0 <= i <= 8,
                all == histogram(self@),
                forall|class: int| 0 <= class < 8 ==> counts@[class] == all[class],
                text@ == render_counts(all.take(i as int)),
            decreases 8 - i,
        {
            proof {
                assert(all.take(i + 1).drop_last() == all.take(i as int));
            }
            push_decimal(&mut text, counts[i]);
            text.append(",");
            proof {
                reveal_strlit(",");
                assert(","@ =~= seq![',']);
            }
            i = i + 1;
        }
        assert(all.take(8) == all);
        text
    }

    /// Whether the dictionary holds no token.
    pub fn is_empty(&self) -> (empty: bool)
        ensures
            empty == (self@.len() == 0),
    {
        map_is_empty(&self.0)
    }
}

} // verus!
