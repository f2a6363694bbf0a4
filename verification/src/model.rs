//! The mathematical model of the token dictionary: a sequence of buckets,
//! each a token length with the tokens of that length in the order in which
//! they arrived, and the buckets themselves in ascending order of length.

use vstd::prelude::*;

verus! {

/// The buckets of a dictionary in index order: a length, and the tokens of
/// that length.
pub type Buckets = Seq<(usize, Seq<Seq<u8>>)>;

/// The bucket keys strictly ascend with the index.
pub open spec fn keys_ascending(e: Buckets) -> bool {
    forall|i: int, j: int| #![trigger e[i], e[j]] 0 <= i < j < e.len() ==> e[i].0 < e[j].0
}

/// A bucket is never empty, holds no token twice, and holds only tokens
/// whose length is the bucket's key.
pub open spec fn bucket_ok(key: usize, words: Seq<Seq<u8>>) -> bool {
    &&& words.len() > 0
    &&& words.no_duplicates()
    &&& forall|k: int| 0 <= k < words.len() ==> (#[trigger] words[k]).len() == key
}

/// What a list of tokens read from a dictionary is, whichever bucket was
/// asked for: no token at all, or tokens of one length with none of them
/// twice.
pub open spec fn is_bucket_list(words: Seq<Seq<u8>>) -> bool {
    words.len() == 0 || bucket_ok(words[0].len() as usize, words)
}

/// The invariant of a dictionary: ascending keys over well-formed buckets.
pub open spec fn buckets_wf(e: Buckets) -> bool {
    &&& keys_ascending(e)
    &&& forall|i: int| 0 <= i < e.len() ==> bucket_ok((#[trigger] e[i]).0, e[i].1)
}

/// The index of the bucket with key `key`, if there is one.
pub open spec fn find_key(e: Buckets, key: usize) -> Option<int>
    decreases e.len(),
{
    if e.len() == 0 {
        None
    } else if e.last().0 == key {
        Some(e.len() - 1)
    } else {
        find_key(e.drop_last(), key)
    }
}

/// The number of buckets whose key lies below `key`: the index at which a
/// bucket with that key belongs.
pub open spec fn rank(e: Buckets, key: usize) -> int
    decreases e.len(),
{
    if e.len() == 0 {
        0
    } else {
        rank(e.drop_last(), key) + if e.last().0 < key {
            1int
        } else {
            0int
        }
    }
}

/// Whether the dictionary holds the token `word`.
pub open spec fn holds(e: Buckets, word: Seq<u8>) -> bool {
    match find_key(e, word.len() as usize) {
        Some(i) => e[i].1.contains(word),
        None => false,
    }
}

/// The dictionary after `word` was offered to it: a token it already holds
/// changes nothing; a new token of a known length goes to the end of that
/// length's bucket; a token of a new length gets a bucket of its own, placed
/// so that the keys still ascend.
pub open spec fn insert_word(e: Buckets, word: Seq<u8>) -> Buckets {
    let key = word.len() as usize;
    match find_key(e, key) {
        Some(i) => if e[i].1.contains(word) {
            e
        } else {
            e.update(i, (key, e[i].1.push(word)))
        },
        None => e.insert(rank(e, key), (key, seq![word])),
    }
}

/// The dictionary after each of `words` was offered to it in turn.
pub open spec fn insert_words(e: Buckets, words: Seq<Seq<u8>>) -> Buckets
    decreases words.len(),
{
    if words.len() == 0 {
        e
    } else {
        insert_word(insert_words(e, words.drop_last()), words.last())
    }
}

/// The number of tokens over all buckets.
pub open spec fn token_count(e: Buckets) -> nat
    decreases e.len(),
{
    if e.len() == 0 {
        0
    } else {
        token_count(e.drop_last()) + e.last().1.len()
    }
}

/// The size class of a token length, by position in the histogram: the
/// lengths 1, 2 and 4 have a class each, then come 5 to 7, 8 to 15, 16 to 31,
/// 32 to 127, and 128 and more. The first class that fits counts, so 4 is
/// never counted with 5 to 7. The lengths 0 and 3 belong to no class.
pub open spec fn length_class(len: usize) -> Option<int> {
    if len == 1 {
        Some(0)
    } else if len == 2 {
        Some(1)
    } else if len == 4 {
        Some(2)
    } else if 4 <= len <= 7 {
        Some(3)
    } else if 8 <= len <= 15 {
        Some(4)
    } else if 16 <= len <= 31 {
        Some(5)
    } else if 32 <= len <= 127 {
        Some(6)
    } else if len >= 128 {
        Some(7)
    } else {
        None
    }
}

/// The number of tokens whose length falls in the size class `class`.
pub open spec fn class_count(e: Buckets, class: int) -> nat
    decreases e.len(),
{
    if e.len() == 0 {
        0
    } else {
        class_count(e.drop_last(), class) + if length_class(e.last().0) == Some(class) {
            e.last().1.len()
        } else {
            0
        }
    }
}

/// What `find_key` finds has the key, and what it does not find is absent.
pub proof fn lemma_find_key(e: Buckets, key: usize)
    ensures
        match find_key(e, key) {
            Some(i) => 0 <= i < e.len() && e[i].0 == key,
            None => forall|j: int| 0 <= j < e.len() ==> (#[trigger] e[j]).0 != key,
        },
    decreases e.len(),
{
    if e.len() > 0 && e.last().0 != key {
        let front = e.drop_last();
        lemma_find_key(front, key);
        if find_key(front, key) is None {
            assert forall|j: int| 0 <= j < e.len() implies (#[trigger] e[j]).0 != key by {
                if j < front.len() {
                    assert(e[j] == front[j]);
                }
            }
        }
    }
}

/// Under ascending keys a bucket with the key is the one that `find_key`
/// finds.
pub proof fn lemma_find_key_at(e: Buckets, key: usize, i: int)
    requires
        keys_ascending(e),
        0 <= i < e.len(),
        e[i].0 == key,
    ensures
        find_key(e, key) == Some(i),
{
    lemma_find_key(e, key);
}

/// Under ascending keys `rank` splits the buckets: below it every key is
/// smaller than `key`, from it on none is.
pub proof fn lemma_rank(e: Buckets, key: usize)
    requires
        keys_ascending(e),
    ensures
        0 <= rank(e, key) <= e.len(),
        forall|j: int| 0 <= j < rank(e, key) ==> (#[trigger] e[j]).0 < key,
        forall|j: int| rank(e, key) <= j < e.len() ==> (#[trigger] e[j]).0 >= key,
    decreases e.len(),
{
    if e.len() > 0 {
        let front = e.drop_last();
        assert(keys_ascending(front)) by {
            assert forall|i: int, j: int|
                #![trigger front[i], front[j]]
                0 <= i < j < front.len() implies front[i].0 < front[j].0 by {
                assert(front[i] == e[i] && front[j] == e[j]);
            }
        }
        lemma_rank(front, key);
        assert forall|j: int| 0 <= j < rank(e, key) implies (#[trigger] e[j]).0 < key by {
            if j < front.len() {
                assert(e[j] == front[j]);
                if j >= rank(front, key) {
                    assert(e[j].0 < e[e.len() - 1].0);
                }
            }
        }
        assert forall|j: int| rank(e, key) <= j < e.len() implies (#[trigger] e[j]).0 >= key by {
            if j < front.len() {
                assert(e[j] == front[j]);
                if e.last().0 < key {
                    if rank(front, key) < front.len() {
                        assert(front[rank(front, key)].0 >= key);
                        assert(e[rank(front, key)].0 < e[e.len() - 1].0);
                    }
                }
            }
        }
    }
}

/// A bucket with a key that no bucket has, put at its rank, keeps the keys
/// ascending.
pub proof fn lemma_insert_at_rank(e: Buckets, pair: (usize, Seq<Seq<u8>>))
    requires
        keys_ascending(e),
        find_key(e, pair.0) is None,
    ensures
        keys_ascending(e.insert(rank(e, pair.0), pair)),
{
    let r = rank(e, pair.0);
    let t = e.insert(r, pair);
    lemma_rank(e, pair.0);
    lemma_find_key(e, pair.0);
    e.insert_ensures(r, pair);
    assert forall|i: int, j: int| #![trigger t[i], t[j]] 0 <= i < j < t.len() implies t[i].0
        < t[j].0 by {
        if i < r {
            assert(t[i] == e[i]);
        } else if i > r {
            assert(t[i] == e[i - 1]);
        }
        if j < r {
            assert(t[j] == e[j]);
        } else if j > r {
            assert(t[j] == e[j - 1]);
        }
    }
}

/// Two sequences of buckets with ascending keys and the same buckets, in
/// whatever number, are the same sequence.
pub proof fn lemma_ascending_unique(f: Buckets, t: Buckets)
    requires
        keys_ascending(f),
        keys_ascending(t),
        f.to_multiset() == t.to_multiset(),
    ensures
        f == t,
    decreases f.len(),
{
    f.to_multiset_ensures();
    t.to_multiset_ensures();
    if f.len() == 0 {
        assert(f =~= t);
    } else {
        let n = f.len() as int;
        let fl = f.last();
        let tl = t.last();
        assert(f.contains(fl));
        assert(t.contains(tl));
        assert(t.contains(fl)) by {
            assert(f.to_multiset().count(fl) > 0);
        }
        assert(f.contains(tl)) by {
            assert(t.to_multiset().count(tl) > 0);
        }
        let a = choose|a: int| 0 <= a < t.len() && t[a] == fl;
        let b = choose|b: int| 0 <= b < f.len() && f[b] == tl;
        if a < n - 1 {
            assert(t[a].0 < t[n - 1].0);
        }
        if b < n - 1 {
            assert(f[b].0 < f[n - 1].0);
        }
        assert(fl == tl);
        assert(f.remove(n - 1) =~= f.drop_last());
        assert(t.remove(n - 1) =~= t.drop_last());
        let fd = f.drop_last();
        let td = t.drop_last();
        assert(keys_ascending(fd)) by {
            assert forall|i: int, j: int|
                #![trigger fd[i], fd[j]]
                0 <= i < j < fd.len() implies fd[i].0 < fd[j].0 by {
                assert(fd[i] == f[i] && fd[j] == f[j]);
            }
        }
        assert(keys_ascending(td)) by {
            assert forall|i: int, j: int|
                #![trigger td[i], td[j]]
                0 <= i < j < td.len() implies td[i].0 < td[j].0 by {
                assert(td[i] == t[i] && td[j] == t[j]);
            }
        }
        lemma_ascending_unique(fd, td);
        assert(f =~= fd.push(fl));
        assert(t =~= td.push(tl));
    }
}

/// Sorting by key after appending a bucket with a new key puts that bucket
/// at its rank: whatever sequence holds the same buckets with keys in
/// non-descending order is the one with the new bucket inserted there.
pub proof fn lemma_sorted_insert(e: Buckets, pair: (usize, Seq<Seq<u8>>), f: Buckets)
    requires
        keys_ascending(e),
        find_key(e, pair.0) is None,
        f.to_multiset() == e.push(pair).to_multiset(),
        forall|i: int, j: int| #![trigger f[i], f[j]] 0 <= i < j < f.len() ==> f[i].0 <= f[j].0,
    ensures
        f == e.insert(rank(e, pair.0), pair),
{
    let r = rank(e, pair.0);
    let t = e.insert(r, pair);
    lemma_rank(e, pair.0);
    lemma_insert_at_rank(e, pair);
    vstd::seq_lib::to_multiset_insert(e, r, pair);
    vstd::seq_lib::to_multiset_build(e, pair);
    assert(t.to_multiset() == f.to_multiset());
    f.to_multiset_ensures();
    t.to_multiset_ensures();
    assert(t.no_duplicates()) by {
        assert forall|i: int, j: int| 0 <= i < t.len() && 0 <= j < t.len() && i != j implies t[i]
            != t[j] by {
            if i < j {
                assert(t[i].0 < t[j].0);
            } else {
                assert(t[j].0 < t[i].0);
            }
        }
    }
    t.lemma_multiset_has_no_duplicates();
    f.lemma_multiset_has_no_duplicates_conv();
    assert forall|i: int, j: int| #![trigger f[i], f[j]] 0 <= i < j < f.len() implies f[i].0
        < f[j].0 by {
        if f[i].0 == f[j].0 {
            assert(f.contains(f[i]));
            assert(f.contains(f[j]));
            assert(t.contains(f[i])) by {
                assert(f.to_multiset().count(f[i]) > 0);
            }
            assert(t.contains(f[j])) by {
                assert(f.to_multiset().count(f[j]) > 0);
            }
            let a = choose|a: int| 0 <= a < t.len() && t[a] == f[i];
            let b = choose|b: int| 0 <= b < t.len() && t[b] == f[j];
            if a < b {
                assert(t[a].0 < t[b].0);
            } else if b < a {
                assert(t[b].0 < t[a].0);
            }
            assert(f[i] == f[j]);
        }
    }
    lemma_ascending_unique(f, t);
}

/// Offering a token to a well-formed dictionary leaves it well-formed.
pub proof fn lemma_insert_word_wf(e: Buckets, word: Seq<u8>)
    requires
        buckets_wf(e),
        word.len() <= usize::MAX,
    ensures
        buckets_wf(insert_word(e, word)),
{
    let key = word.len() as usize;
    let after = insert_word(e, word);
    lemma_find_key(e, key);
    match find_key(e, key) {
        Some(i) => {
            if !e[i].1.contains(word) {
                let grown = e[i].1.push(word);
                assert(grown.no_duplicates()) by {
                    assert forall|a: int, b: int|
                        0 <= a < grown.len() && 0 <= b < grown.len() && a != b implies grown[a]
                        != grown[b] by {
                        if a < e[i].1.len() {
                            assert(e[i].1.contains(grown[a]));
                        }
                        if b < e[i].1.len() {
                            assert(e[i].1.contains(grown[b]));
                        }
                    }
                }
                assert(bucket_ok(key, grown));
                assert forall|j: int| 0 <= j < after.len() implies bucket_ok(
                    (#[trigger] after[j]).0,
                    after[j].1,
                ) by {
                    if j != i {
                        assert(after[j] == e[j]);
                    }
                }
                assert(keys_ascending(after)) by {
                    assert forall|a: int, b: int|
                        #![trigger after[a], after[b]]
                        0 <= a < b < after.len() implies after[a].0 < after[b].0 by {
                        assert(after[a].0 == e[a].0 && after[b].0 == e[b].0);
                    }
                }
            }
        },
        None => {
            let r = rank(e, key);
            lemma_rank(e, key);
            lemma_insert_at_rank(e, (key, seq![word]));
            e.insert_ensures(r, (key, seq![word]));
            assert(bucket_ok(key, seq![word]));
            assert forall|j: int| 0 <= j < after.len() implies bucket_ok(
                (#[trigger] after[j]).0,
                after[j].1,
            ) by {
                if j < r {
                    assert(after[j] == e[j]);
                } else if j > r {
                    assert(after[j] == e[j - 1]);
                }
            }
        },
    }
}

/// Offering tokens to a well-formed dictionary leaves it well-formed.
pub proof fn lemma_insert_words_wf(e: Buckets, words: Seq<Seq<u8>>)
    requires
        buckets_wf(e),
        forall|k: int| 0 <= k < words.len() ==> (#[trigger] words[k]).len() <= usize::MAX,
    ensures
        buckets_wf(insert_words(e, words)),
    decreases words.len(),
{
    if words.len() > 0 {
        lemma_insert_words_wf(e, words.drop_last());
        lemma_insert_word_wf(insert_words(e, words.drop_last()), words.last());
    }
}

/// Replacing one bucket changes the token count by the difference of the
/// two buckets' sizes.
pub proof fn lemma_token_count_update(e: Buckets, i: int, pair: (usize, Seq<Seq<u8>>))
    requires
        0 <= i < e.len(),
    ensures
        token_count(e.update(i, pair)) == token_count(e) - e[i].1.len() + pair.1.len(),
    decreases e.len(),
{
    let after = e.update(i, pair);
    if i == e.len() - 1 {
        assert(after.drop_last() == e.drop_last());
    } else {
        assert(after.drop_last() == e.drop_last().update(i, pair));
        lemma_token_count_update(e.drop_last(), i, pair);
    }
}

/// A new bucket adds its size to the token count.
pub proof fn lemma_token_count_insert(e: Buckets, at: int, pair: (usize, Seq<Seq<u8>>))
    requires
        0 <= at <= e.len(),
    ensures
        token_count(e.insert(at, pair)) == token_count(e) + pair.1.len(),
    decreases e.len(),
{
    let after = e.insert(at, pair);
    e.insert_ensures(at, pair);
    if at == e.len() {
        assert(after.drop_last() == e);
    } else {
        e.drop_last().insert_ensures(at, pair);
        assert(after.drop_last() == e.drop_last().insert(at, pair));
        assert(after.last() == e.last());
        lemma_token_count_insert(e.drop_last(), at, pair);
    }
}

/// Growth by one: offering a token adds exactly one token if the dictionary
/// did not hold it, and none if it did.
pub proof fn lemma_insert_word_count(e: Buckets, word: Seq<u8>)
    requires
        buckets_wf(e),
    ensures
        token_count(insert_word(e, word)) == token_count(e) + if holds(e, word) {
            0nat
        } else {
            1nat
        },
{
    let key = word.len() as usize;
    lemma_find_key(e, key);
    match find_key(e, key) {
        Some(i) => {
            if !e[i].1.contains(word) {
                lemma_token_count_update(e, i, (key, e[i].1.push(word)));
            }
        },
        None => {
            lemma_rank(e, key);
            lemma_token_count_insert(e, rank(e, key), (key, seq![word]));
        },
    }
}

/// A token that the dictionary holds changes nothing when it is offered
/// again: no bucket grows.
pub proof fn lemma_reinsert_unchanged(e: Buckets, word: Seq<u8>)
    requires
        holds(e, word),
    ensures
        insert_word(e, word) == e,
{
}

/// Once offered, a token is held.
pub proof fn lemma_insert_word_holds(e: Buckets, word: Seq<u8>)
    requires
        buckets_wf(e),
        word.len() <= usize::MAX,
    ensures
        holds(insert_word(e, word), word),
{
    let key = word.len() as usize;
    let after = insert_word(e, word);
    lemma_find_key(e, key);
    lemma_insert_word_wf(e, word);
    match find_key(e, key) {
        Some(i) => {
            if !e[i].1.contains(word) {
                assert(after[i].1.last() == word);
            }
            lemma_find_key_at(after, key, i);
        },
        None => {
            let r = rank(e, key);
            lemma_rank(e, key);
            e.insert_ensures(r, (key, seq![word]));
            assert(after[r].1[0] == word);
            lemma_find_key_at(after, key, r);
        },
    }
}

/// Nothing is ever lost: a token that the dictionary holds is still held
/// after another token was offered.
pub proof fn lemma_insert_word_keeps(e: Buckets, word: Seq<u8>, other: Seq<u8>)
    requires
        buckets_wf(e),
        word.len() <= usize::MAX,
        holds(e, other),
    ensures
        holds(insert_word(e, word), other),
{
    let key = word.len() as usize;
    let other_key = other.len() as usize;
    let after = insert_word(e, word);
    lemma_find_key(e, key);
    lemma_find_key(e, other_key);
    lemma_insert_word_wf(e, word);
    let at = find_key(e, other_key).unwrap();
    let k = choose|k: int| 0 <= k < e[at].1.len() && e[at].1[k] == other;
    match find_key(e, key) {
        Some(i) => {
            if !e[i].1.contains(word) {
                if i == at {
                    assert(after[at].1[k] == other);
                }
                lemma_find_key_at(after, other_key, at);
            }
        },
        None => {
            let r = rank(e, key);
            lemma_rank(e, key);
            e.insert_ensures(r, (key, seq![word]));
            if at < r {
                assert(after[at] == e[at]);
                lemma_find_key_at(after, other_key, at);
            } else {
                assert(after[at + 1] == e[at]);
                lemma_find_key_at(after, other_key, at + 1);
            }
        },
    }
}

/// Offering tokens never shrinks the dictionary, and keeps what it held.
pub proof fn lemma_insert_words_grows(e: Buckets, words: Seq<Seq<u8>>, other: Seq<u8>)
    requires
        buckets_wf(e),
        forall|k: int| 0 <= k < words.len() ==> (#[trigger] words[k]).len() <= usize::MAX,
    ensures
        token_count(insert_words(e, words)) >= token_count(e),
        holds(e, other) ==> holds(insert_words(e, words), other),
    decreases words.len(),
{
    if words.len() > 0 {
        let before = insert_words(e, words.drop_last());
        lemma_insert_words_grows(e, words.drop_last(), other);
        lemma_insert_words_wf(e, words.drop_last());
        lemma_insert_word_count(before, words.last());
        if holds(e, other) {
            lemma_insert_word_keeps(before, words.last(), other);
        }
    }
}

/// The tokens of a well-formed dictionary are pairwise distinct, so the
/// number of tokens is the number of distinct tokens.
pub proof fn lemma_tokens_distinct(e: Buckets, i: int, a: int, j: int, b: int)
    requires
        buckets_wf(e),
        0 <= i < e.len(),
        0 <= a < e[i].1.len(),
        0 <= j < e.len(),
        0 <= b < e[j].1.len(),
        i != j || a != b,
    ensures
        e[i].1[a] != e[j].1[b],
{
    assert(bucket_ok(e[i].0, e[i].1));
    assert(bucket_ok(e[j].0, e[j].1));
    if i < j {
        assert(e[i].0 < e[j].0);
    } else if j < i {
        assert(e[j].0 < e[i].0);
    }
}

/// Read by index, a well-formed dictionary hands out its tokens in
/// ascending order of length: every token of a bucket is shorter than every
/// token of a bucket with a higher index.
pub proof fn lemma_lists_ascend(e: Buckets, i: int, j: int, a: Seq<u8>, b: Seq<u8>)
    requires
        buckets_wf(e),
        0 <= i < j < e.len(),
        e[i].1.contains(a),
        e[j].1.contains(b),
    ensures
        a.len() == e[i].0,
        b.len() == e[j].0,
        a.len() < b.len(),
{
    assert(bucket_ok(e[i].0, e[i].1));
    assert(bucket_ok(e[j].0, e[j].1));
    assert(e[i].0 < e[j].0);
}

/// The buckets of a well-formed dictionary come in ascending order of
/// length, so the bucket at index 0 is the one of the shortest tokens.
pub proof fn lemma_buckets_ascend(e: Buckets, i: int, j: int)
    requires
        buckets_wf(e),
        0 <= i <= j < e.len(),
    ensures
        e[i].0 <= e[j].0,
        i < j ==> e[i].0 < e[j].0,
        e[0].0 <= e[i].0,
{
    if 0 < i {
        assert(e[0].0 < e[i].0);
    }
    if i < j {
        assert(e[i].0 < e[j].0);
    }
}

} // verus!
