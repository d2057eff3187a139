//! The depth-first backtracking enumeration of anagram combinations.

use crate::letters::Letters;
use crate::words::WordMap;
use vstd::multiset::Multiset;
use vstd::prelude::*;

verus! {

broadcast use vstd::seq_lib::group_to_multiset_ensures, vstd::multiset::group_multiset_axioms;

/// The smaller of two lengths.
pub open spec fn min_int(a: int, b: int) -> int {
    if a <= b {
        a
    } else {
        b
    }
}

/// The words of length `len` that the index holds, or none where no such
/// bucket exists.
pub open spec fn bucket(w: Seq<Seq<Seq<char>>>, len: int) -> Seq<Seq<char>> {
    if 0 <= len < w.len() {
        w[len]
    } else {
        Seq::empty()
    }
}

/// The combinations the search emits, in discovery order, for the remaining
/// letters `rem` when no word longer than `limit` characters may be chosen:
/// an exhausted multiset yields exactly the empty combination, and otherwise
/// candidate word lengths are tried from `min(rem.len(), limit)` down to 1.
pub open spec fn search_spec(w: Seq<Seq<Seq<char>>>, rem: Multiset<char>, limit: int) -> Seq<
    Seq<Seq<char>>,
>
    decreases rem.len(), 2int, 0int,
{
    if rem.len() == 0 {
        seq![Seq::<Seq<char>>::empty()]
    } else {
        per_lens(w, rem, min_int(rem.len() as int, limit))
    }
}

/// The combinations found by trying word lengths `len` down to 1.
pub open spec fn per_lens(w: Seq<Seq<Seq<char>>>, rem: Multiset<char>, len: int) -> Seq<
    Seq<Seq<char>>,
>
    decreases rem.len(), 1int, len,
{
    if len <= 0 {
        Seq::empty()
    } else {
        per_bucket(w, rem, len, 0) + per_lens(w, rem, len - 1)
    }
}

/// The combinations found by trying, in stored order, the words of the
/// length-`len` bucket from position `j` on: each word that fits is chosen,
/// the search continues on what is left with the ceiling lowered to `len`,
/// and the word is put in front of every completion found.
pub open spec fn per_bucket(w: Seq<Seq<Seq<char>>>, rem: Multiset<char>, len: int, j: int) -> Seq<
    Seq<Seq<char>>,
>
    decreases rem.len(), 0int, bucket(w, len).len() - j,
{
    if j < 0 || j >= bucket(w, len).len() {
        Seq::empty()
    } else {
        let word = bucket(w, len)[j];
        let head = if 0 < word.len() && word.to_multiset().subset_of(rem) {
            search_spec(w, rem.sub(word.to_multiset()), len).map_values(
                |c: Seq<Seq<char>>| seq![word] + c,
            )
        } else {
            Seq::<Seq<Seq<char>>>::empty()
        };
        head + per_bucket(w, rem, len, j + 1)
    }
}

/// The multiset of all characters of the words of a combination.
pub open spec fn combo_chars(c: Seq<Seq<char>>) -> Multiset<char>
    decreases c.len(),
{
    if c.len() == 0 {
        Multiset::empty()
    } else {
        c.first().to_multiset().add(combo_chars(c.drop_first()))
    }
}

/// Consecutive words' character lengths never increase.
pub open spec fn non_increasing(c: Seq<Seq<char>>) -> bool {
    forall|i: int| 0 <= i && i + 1 < c.len() ==> (#[trigger] c[i + 1]).len() <= c[i].len()
}

/// The word stands in the index, in the bucket of its own length.
pub open spec fn word_in_index(w: Seq<Seq<Seq<char>>>, word: Seq<char>) -> bool {
    word.len() < w.len() && w[word.len() as int].contains(word)
}

/// What holds of a combination the search emits for remaining letters
/// `rem` under word-length ceiling `limit` — and, conversely, what
/// suffices for a combination to be emitted: its words consume `rem`
/// exactly, each stands in the index and is non-empty, and the word
/// lengths never increase, starting at `limit` or below.
pub open spec fn valid_combo(
    w: Seq<Seq<Seq<char>>>,
    rem: Multiset<char>,
    limit: int,
    c: Seq<Seq<char>>,
) -> bool {
    &&& combo_chars(c) == rem
    &&& non_increasing(c)
    &&& forall|i: int| 0 <= i < c.len() ==> word_in_index(w, #[trigger] c[i])
    &&& forall|i: int| 0 <= i < c.len() ==> (#[trigger] c[i]).len() > 0
    &&& c.len() > 0 ==> c[0].len() <= limit
}

proof fn lemma_sound_search(w: Seq<Seq<Seq<char>>>, rem: Multiset<char>, limit: int, k: int)
    requires
        crate::words::wf_index(w),
        0 <= k < search_spec(w, rem, limit).len(),
    ensures
        valid_combo(w, rem, limit, search_spec(w, rem, limit)[k]),
    decreases rem.len(), 2int, 0int,
{
    if rem.len() == 0 {
        let c = search_spec(w, rem, limit)[k];
        assert(c =~= Seq::<Seq<char>>::empty());
        assert(rem =~= Multiset::<char>::empty()) by {
            assert forall|v: char| rem.count(v) == 0 by {
                assert(rem.count(v) <= rem.len());
            }
        }
    } else {
        lemma_sound_lens(w, rem, min_int(rem.len() as int, limit), k);
    }
}

proof fn lemma_sound_lens(w: Seq<Seq<Seq<char>>>, rem: Multiset<char>, len: int, k: int)
    requires
        crate::words::wf_index(w),
        rem.len() > 0,
        0 <= k < per_lens(w, rem, len).len(),
    ensures
        valid_combo(w, rem, len, per_lens(w, rem, len)[k]),
    decreases rem.len(), 1int, len,
{
    assert(len > 0);
    let pb = per_bucket(w, rem, len, 0);
    let rest = per_lens(w, rem, len - 1);
    if k < pb.len() {
        lemma_sound_bucket(w, rem, len, 0, k);
        assert(per_lens(w, rem, len)[k] == pb[k]);
    } else {
        lemma_sound_lens(w, rem, len - 1, k - pb.len());
        assert(per_lens(w, rem, len)[k] == rest[k - pb.len()]);
    }
}

proof fn lemma_sound_bucket(w: Seq<Seq<Seq<char>>>, rem: Multiset<char>, len: int, j: int, k: int)
    requires
        crate::words::wf_index(w),
        rem.len() > 0,
        0 <= len,
        0 <= j,
        0 <= k < per_bucket(w, rem, len, j).len(),
    ensures
        valid_combo(w, rem, len, per_bucket(w, rem, len, j)[k]),
    decreases rem.len(), 0int, bucket(w, len).len() - j,
{
    assert(j < bucket(w, len).len());
    let word = bucket(w, len)[j];
    let ms = word.to_multiset();
    let head = if 0 < word.len() && ms.subset_of(rem) {
        search_spec(w, rem.sub(ms), len).map_values(|c: Seq<Seq<char>>| seq![word] + c)
    } else {
        Seq::<Seq<Seq<char>>>::empty()
    };
    assert(per_bucket(w, rem, len, j) == head + per_bucket(w, rem, len, j + 1));
    if k < head.len() {
        assert(0 <= len < w.len());
        assert(w[len][j] == word);
        assert(word.len() == len);
        let sub = search_spec(w, rem.sub(ms), len);
        lemma_sound_search(w, rem.sub(ms), len, k);
        let tail = sub[k];
        let c = head[k];
        assert(c == seq![word] + tail);
        assert(c.first() == word);
        assert(c.drop_first() =~= tail);
        assert(combo_chars(c) == ms.add(combo_chars(tail)));
        assert(combo_chars(tail) == rem.sub(ms));
        assert(ms.add(rem.sub(ms)) =~= rem) by {
            assert forall|v: char| ms.add(rem.sub(ms)).count(v) == rem.count(v) by {
                assert(ms.count(v) <= rem.count(v));
            }
        }
        assert forall|i: int| 0 <= i && i + 1 < c.len() implies (#[trigger] c[i + 1]).len()
            <= c[i].len() by {
            if i == 0 {
                assert(c[1] == tail[0]);
            } else {
                assert(c[i] == tail[i - 1]);
                assert(c[i + 1] == tail[i]);
            }
        }
        assert(w[len].contains(word)) by {
            assert(w[len][j] == word);
        }
        assert forall|i: int| 0 <= i < c.len() implies word_in_index(w, #[trigger] c[i]) && (
        c[i]).len() > 0 by {
            if i == 0 {
                assert(c[0] == word);
            } else {
                assert(c[i] == tail[i - 1]);
            }
        }
        assert(per_bucket(w, rem, len, j)[k] == c);
    } else {
        lemma_sound_bucket(w, rem, len, j + 1, k - head.len());
        assert(per_bucket(w, rem, len, j)[k] == per_bucket(w, rem, len, j + 1)[k - head.len()]);
    }
}

proof fn lemma_complete_search(
    w: Seq<Seq<Seq<char>>>,
    rem: Multiset<char>,
    limit: int,
    c: Seq<Seq<char>>,
)
    requires
        crate::words::wf_index(w),
        valid_combo(w, rem, limit, c),
    ensures
        search_spec(w, rem, limit).contains(c),
    decreases rem.len(), 2int, 0int,
{
    if c.len() == 0 {
        assert(rem == combo_chars(c));
        assert(rem.len() == 0);
        assert(search_spec(w, rem, limit)[0] == c);
    } else {
        let word = c[0];
        let tail = c.drop_first();
        assert(c.first() == word);
        assert(combo_chars(c) == word.to_multiset().add(combo_chars(tail)));
        assert(rem.len() == word.to_multiset().len() + combo_chars(tail).len());
        assert(word.len() > 0);
        assert(rem.len() > 0);
        assert(word.to_multiset().subset_of(rem)) by {
            assert forall|v: char| word.to_multiset().count(v) <= rem.count(v) by {
                assert(rem.count(v) == word.to_multiset().count(v) + combo_chars(tail).count(v));
            }
        }
        assert(word.len() <= rem.len());
        lemma_complete_lens(w, rem, min_int(rem.len() as int, limit), c);
        let pl = per_lens(w, rem, min_int(rem.len() as int, limit));
        let idx = choose|idx: int| 0 <= idx < pl.len() && pl[idx] == c;
        assert(search_spec(w, rem, limit)[idx] == c);
    }
}

proof fn lemma_complete_lens(
    w: Seq<Seq<Seq<char>>>,
    rem: Multiset<char>,
    len: int,
    c: Seq<Seq<char>>,
)
    requires
        crate::words::wf_index(w),
        rem.len() > 0,
        c.len() > 0,
        valid_combo(w, rem, len, c),
    ensures
        per_lens(w, rem, len).contains(c),
    decreases rem.len(), 1int, len,
{
    let pb = per_bucket(w, rem, len, 0);
    let rest = per_lens(w, rem, len - 1);
    assert(c[0].len() > 0);
    assert(c[0].len() <= len);
    if c[0].len() == len {
        assert(word_in_index(w, c[0]));
        assert(bucket(w, len) == w[len]);
        assert(bucket(w, len).contains(c[0]));
        let jj = choose|jj: int| 0 <= jj < bucket(w, len).len() && bucket(w, len)[jj] == c[0];
        lemma_complete_bucket(w, rem, len, 0, c);
        let idx = choose|idx: int| 0 <= idx < pb.len() && pb[idx] == c;
        assert(per_lens(w, rem, len)[idx] == c);
    } else {
        lemma_complete_lens(w, rem, len - 1, c);
        let idx = choose|idx: int| 0 <= idx < rest.len() && rest[idx] == c;
        assert(per_lens(w, rem, len)[pb.len() + idx] == c);
    }
}

proof fn lemma_complete_bucket(
    w: Seq<Seq<Seq<char>>>,
    rem: Multiset<char>,
    len: int,
    j: int,
    c: Seq<Seq<char>>,
)
    requires
        crate::words::wf_index(w),
        rem.len() > 0,
        c.len() > 0,
        valid_combo(w, rem, len, c),
        c[0].len() == len,
        0 <= j,
        exists|jj: int| j <= jj < bucket(w, len).len() && bucket(w, len)[jj] == c[0],
    ensures
        per_bucket(w, rem, len, j).contains(c),
    decreases rem.len(), 0int, bucket(w, len).len() - j,
{
    let jj = choose|jj: int| j <= jj < bucket(w, len).len() && bucket(w, len)[jj] == c[0];
    assert(j < bucket(w, len).len());
    let word = bucket(w, len)[j];
    let ms = word.to_multiset();
    let head = if 0 < word.len() && ms.subset_of(rem) {
        search_spec(w, rem.sub(ms), len).map_values(|cc: Seq<Seq<char>>| seq![word] + cc)
    } else {
        Seq::<Seq<Seq<char>>>::empty()
    };
    assert(per_bucket(w, rem, len, j) == head + per_bucket(w, rem, len, j + 1));
    if word == c[0] {
        let tail = c.drop_first();
        assert(c.first() == word);
        assert(combo_chars(c) == ms.add(combo_chars(tail)));
        assert(ms.subset_of(rem)) by {
            assert forall|v: char| ms.count(v) <= rem.count(v) by {
                assert(rem.count(v) == ms.count(v) + combo_chars(tail).count(v));
            }
        }
        assert(word.len() == len);
        assert(combo_chars(tail) =~= rem.sub(ms)) by {
            assert forall|v: char| combo_chars(tail).count(v) == rem.sub(ms).count(v) by {
                assert(rem.count(v) == ms.count(v) + combo_chars(tail).count(v));
            }
        }
        assert(rem.sub(ms).len() < rem.len());
        assert forall|i: int| 0 <= i && i + 1 < tail.len() implies (#[trigger] tail[i + 1]).len()
            <= tail[i].len() by {
            assert(tail[i] == c[i + 1]);
            assert(tail[i + 1] == c[i + 2]);
        }
        assert forall|i: int| 0 <= i < tail.len() implies word_in_index(w, #[trigger] tail[i]) && (
        tail[i]).len() > 0 by {
            assert(tail[i] == c[i + 1]);
        }
        assert(tail.len() > 0 ==> tail[0].len() <= len) by {
            if tail.len() > 0 {
                assert(tail[0] == c[1]);
                assert(c[1].len() <= c[0].len());
            }
        }
        lemma_complete_search(w, rem.sub(ms), len, tail);
        let sub = search_spec(w, rem.sub(ms), len);
        let k = choose|k: int| 0 <= k < sub.len() && sub[k] == tail;
        assert(head[k] == seq![word] + tail);
        assert(seq![word] + tail =~= c);
        assert(per_bucket(w, rem, len, j)[k] == c);
    } else {
        assert(jj >= j + 1);
        lemma_complete_bucket(w, rem, len, j + 1, c);
        let pbn = per_bucket(w, rem, len, j + 1);
        let k2 = choose|k2: int| 0 <= k2 < pbn.len() && pbn[k2] == c;
        assert(per_bucket(w, rem, len, j)[head.len() + k2] == c);
    }
}

/// Bridge between the recursive character count of a combination and the
/// concatenation of its words: flattening the words and bagging the
/// characters gives the same multiset.
proof fn lemma_combo_chars_flatten(c: Seq<Seq<char>>)
    ensures
        c.flatten().to_multiset() == combo_chars(c),
    decreases c.len(),
{
    if c.len() == 0 {
        assert(c.flatten().to_multiset() =~= Multiset::<char>::empty());
    } else {
        assert(c.flatten() == c.first() + c.drop_first().flatten());
        vstd::seq_lib::lemma_multiset_commutative(c.first(), c.drop_first().flatten());
        lemma_combo_chars_flatten(c.drop_first());
    }
}

/// Law (multiset conservation): every combination the search emits, once
/// its words are concatenated, holds exactly the characters of the
/// remaining letters it was asked to consume — none left over, none
/// missing.
pub proof fn lemma_multiset_conservation(
    w: Seq<Seq<Seq<char>>>,
    rem: Multiset<char>,
    limit: int,
    k: int,
)
    requires
        crate::words::wf_index(w),
        0 <= k < search_spec(w, rem, limit).len(),
    ensures
        search_spec(w, rem, limit)[k].flatten().to_multiset() == rem,
    decreases rem.len(),
{
    lemma_sound_search(w, rem, limit, k);
    lemma_combo_chars_flatten(search_spec(w, rem, limit)[k]);
}

/// Law (non-increasing length): in every combination the search emits,
/// consecutive words' character lengths form a non-increasing sequence,
/// and no word is longer than the ceiling.
pub proof fn lemma_non_increasing_lengths(
    w: Seq<Seq<Seq<char>>>,
    rem: Multiset<char>,
    limit: int,
    k: int,
)
    requires
        crate::words::wf_index(w),
        0 <= k < search_spec(w, rem, limit).len(),
    ensures
        non_increasing(search_spec(w, rem, limit)[k]),
        search_spec(w, rem, limit)[k].len() > 0 ==> search_spec(w, rem, limit)[k][0].len() <= limit,
{
    lemma_sound_search(w, rem, limit, k);
}

/// Law (no false positives): every word of every combination the search
/// emits stands in the dictionary index, in the bucket of its own length,
/// and is never empty.
pub proof fn lemma_only_dictionary_words(
    w: Seq<Seq<Seq<char>>>,
    rem: Multiset<char>,
    limit: int,
    k: int,
)
    requires
        crate::words::wf_index(w),
        0 <= k < search_spec(w, rem, limit).len(),
    ensures
        forall|i: int|
            0 <= i < search_spec(w, rem, limit)[k].len() ==> word_in_index(
                w,
                #[trigger] search_spec(w, rem, limit)[k][i],
            ),
        forall|i: int|
            0 <= i < search_spec(w, rem, limit)[k].len() ==> (#[trigger] search_spec(
                w,
                rem,
                limit,
            )[k][i]).len() > 0,
{
    lemma_sound_search(w, rem, limit, k);
}

/// Law (completeness): every combination of non-empty dictionary words
/// whose letters consume the remaining multiset exactly, in non-increasing
/// length order starting at or below the ceiling, is emitted by the
/// search.
pub proof fn lemma_completeness(
    w: Seq<Seq<Seq<char>>>,
    rem: Multiset<char>,
    limit: int,
    c: Seq<Seq<char>>,
)
    requires
        crate::words::wf_index(w),
        valid_combo(w, rem, limit, c),
    ensures
        search_spec(w, rem, limit).contains(c),
{
    lemma_complete_search(w, rem, limit, c);
}

/// Enumerates every ordered sequence of dictionary words whose letters,
/// taken together, are exactly the remaining letters of `target`, in the
/// order the depth-first search discovers them.
pub fn for_anagrams(words: &WordMap, target: &Letters) -> (out: Vec<Vec<String>>)
    ensures
        out.deep_view() == search_spec(words@, target@, words@.len() - 1),
{
    let limit = words.maxlen();
    go(words, target, limit)
}

/// Like [`for_anagrams`], but stops searching as soon as `cap`
/// combinations have been found: the result is exactly the first `cap`
/// combinations of the full enumeration, or all of them where fewer
/// exist. A caller that needs only a few results can so bound the work.
pub fn for_anagrams_capped(words: &WordMap, target: &Letters, cap: usize) -> (out: Vec<
    Vec<String>,
>)
    ensures
        out.deep_view() == search_spec(words@, target@, words@.len() - 1).take(
            min_int(
                cap as int,
                search_spec(words@, target@, words@.len() - 1).len() as int,
            ),
        ),
{
    let limit = words.maxlen();
    go_capped(words, target, limit, cap)
}

/// One recursion step of the capped search: the first `cap` combinations
/// of what the unbounded step would emit.
fn go_capped(words: &WordMap, remaining: &Letters, limit: usize, cap: usize) -> (out: Vec<
    Vec<String>,
>)
    ensures
        out.deep_view() == search_spec(words@, remaining@, limit as int).take(
            min_int(cap as int, search_spec(words@, remaining@, limit as int).len() as int),
        ),
    decreases remaining@.len(),
{
    let ghost full = search_spec(words@, remaining@, limit as int);
    if remaining.len() == 0 {
        let mut out: Vec<Vec<String>> = Vec::new();
        if cap > 0 {
            let combo: Vec<String> = Vec::new();
            out.push(combo);
        }
        proof {
            assert(out.deep_view() =~~= full.take(min_int(cap as int, full.len() as int)));
        }
        return out;
    }
    let rl = remaining.len();
    let hi = if rl <= limit {
        rl
    } else {
        limit
    };
    let mut out: Vec<Vec<String>> = Vec::new();
    let mut len = hi;
    let ghost mut covered: Seq<Seq<Seq<char>>> = Seq::empty();
    proof {
        assert(full == per_lens(words@, remaining@, hi as int));
        assert(covered + per_lens(words@, remaining@, hi as int) =~= per_lens(
            words@,
            remaining@,
            hi as int,
        ));
        assert(out.deep_view() =~= covered);
    }
    while len >= 1
        invariant
            len <= hi,
            remaining@.len() > 0,
            hi as int == min_int(remaining@.len() as int, limit as int),
            full == per_lens(words@, remaining@, hi as int),
            out@.len() <= cap,
            out@.len() < cap ==> {
                &&& full == covered + per_lens(words@, remaining@, len as int)
                &&& out.deep_view() == covered
                &&& covered.len() == out@.len()
            },
            out@.len() == cap ==> out.deep_view() == full.take(cap as int) && cap <= full.len(),
        decreases len,
    {
        if out.len() < cap {
            let bc = words.bucket_count();
            if len < bc {
                let bl = words.bucket_len(len);
                proof {
                    assert(bucket(words@, len as int) == words@[len as int]);
                }
                let mut j: usize = 0;
                while j < bl
                    invariant
                        j <= bl,
                        1 <= len < words@.len(),
                        len <= hi,
                        remaining@.len() > 0,
                        hi as int == min_int(remaining@.len() as int, limit as int),
                        full == per_lens(words@, remaining@, hi as int),
                        bl == words@[len as int].len(),
                        out@.len() <= cap,
                        out@.len() < cap ==> {
                            &&& full == covered + per_bucket(words@, remaining@, len as int, j as int)
                                + per_lens(words@, remaining@, len as int - 1)
                            &&& out.deep_view() == covered
                            &&& covered.len() == out@.len()
                        },
                        out@.len() == cap ==> out.deep_view() == full.take(cap as int) && cap
                            <= full.len(),
                    decreases bl - j,
                {
                    if out.len() < cap {
                        let word = words.word_at(len, j);
                        let ghost pb_here = per_bucket(words@, remaining@, len as int, j as int);
                        let ghost pb_next = per_bucket(words@, remaining@, len as int, j + 1);
                        match remaining.subtract(word.as_str()) {
                            Some(rest) => {
                                proof {
                                    assert(rest@.len() < remaining@.len());
                                }
                                let budget = cap - out.len();
                                let subs = go_capped(words, &rest, len, budget);
                                let ghost sub_full = search_spec(words@, rest@, len as int);
                                let ghost q = subs@.len() as int;
                                let ghost mapped = sub_full.map_values(
                                    |c: Seq<Seq<char>>| seq![word@] + c,
                                );
                                proof {
                                    assert(subs.deep_view().len() == subs@.len());
                                    assert(q == min_int(budget as int, sub_full.len() as int)) by {
                                        assert(subs.deep_view() == sub_full.take(
                                            min_int(budget as int, sub_full.len() as int),
                                        ));
                                        assert(sub_full.take(
                                            min_int(budget as int, sub_full.len() as int),
                                        ).len() == min_int(budget as int, sub_full.len() as int));
                                    }
                                    assert(0 <= q <= sub_full.len());
                                    assert(pb_here =~= mapped + pb_next) by {
                                        assert(bucket(words@, len as int)[j as int] == word@);
                                        assert(sub_full.map_values(
                                            |c: Seq<Seq<char>>| seq![bucket(
                                                words@,
                                                len as int,
                                            )[j as int]] + c,
                                        ) =~= mapped);
                                    }
                                    assert(subs.deep_view().map_values(
                                        |c: Seq<Seq<char>>| seq![word@] + c,
                                    ) =~= mapped.take(q));
                                }
                                let ghost base = out.deep_view();
                                let mut k: usize = 0;
                                while k < subs.len()
                                    invariant
                                        k <= subs@.len(),
                                        subs.deep_view() == sub_full.take(q),
                                        q == subs@.len() as int,
                                        0 <= q <= sub_full.len(),
                                        mapped == sub_full.map_values(
                                            |c: Seq<Seq<char>>| seq![word@] + c,
                                        ),
                                        out.deep_view() == base + mapped.take(k as int),
                                        out@.len() == base.len() + k,
                                    decreases subs@.len() - k,
                                {
                                    let ghost sv = subs.deep_view()[k as int];
                                    let mut combo: Vec<String> = Vec::new();
                                    combo.push(word.clone());
                                    proof {
                                        assert(combo.deep_view() =~= seq![word@] + sv.take(0));
                                    }
                                    let sub = &subs[k];
                                    proof {
                                        assert(sub.deep_view() == subs.deep_view()[k as int]);
                                    }
                                    let mut t: usize = 0;
                                    while t < sub.len()
                                        invariant
                                            t <= sub@.len(),
                                            sub.deep_view() == sv,
                                            sv.len() == sub@.len(),
                                            combo.deep_view() == seq![word@] + sv.take(t as int),
                                        decreases sub@.len() - t,
                                    {
                                        let ghost cd = combo.deep_view();
                                        combo.push(sub[t].clone());
                                        proof {
                                            assert(sub@[t as int].deep_view() == sv[t as int]);
                                            assert(combo.deep_view() =~= cd.push(sv[t as int]));
                                            assert(cd.push(sv[t as int]) =~= seq![word@] + sv.take(
                                                t + 1,
                                            ));
                                        }
                                        t += 1;
                                    }
                                    proof {
                                        assert(sv.take(sv.len() as int) =~= sv);
                                    }
                                    let ghost od = out.deep_view();
                                    out.push(combo);
                                    proof {
                                        assert(out.deep_view() =~= od.push(seq![word@] + sv));
                                        assert(sv == sub_full[k as int]);
                                        assert(mapped[k as int] == seq![word@] + sv);
                                        assert(mapped.take(k + 1) =~= mapped.take(k as int).push(
                                            mapped[k as int],
                                        ));
                                        assert(out.deep_view() =~= base + mapped.take(k + 1));
                                    }
                                    k += 1;
                                }
                                proof {
                                    assert(out.deep_view() == base + mapped.take(q));
                                    assert(out@.len() == covered.len() + q);
                                    if q < budget {
                                        assert(sub_full.len() as int == q);
                                        assert(mapped.take(q) =~= mapped);
                                        covered = covered + mapped;
                                        assert(out.deep_view() == covered);
                                        assert(full =~= covered + pb_next + per_lens(
                                            words@,
                                            remaining@,
                                            len as int - 1,
                                        ));
                                    } else {
                                        assert(out@.len() == cap);
                                        let whole = covered + mapped;
                                        assert(full =~= whole + (pb_next + per_lens(
                                            words@,
                                            remaining@,
                                            len as int - 1,
                                        )));
                                        assert(cap <= whole.len());
                                        assert(out.deep_view() =~= whole.take(cap as int)) by {
                                            assert forall|x: int|
                                                0 <= x < cap implies (base + mapped.take(q))[x]
                                                == whole[x] by {}
                                        }
                                        assert(whole.take(cap as int) =~= full.take(cap as int));
                                    }
                                }
                            },
                            None => {
                                proof {
                                    assert(pb_here == pb_next) by {
                                        assert(bucket(words@, len as int)[j as int] == word@);
                                        assert(!word@.to_multiset().subset_of(remaining@));
                                        assert(pb_here =~= Seq::<Seq<Seq<char>>>::empty()
                                            + pb_next);
                                        assert(Seq::<Seq<Seq<char>>>::empty() + pb_next
                                            =~= pb_next);
                                    }
                                }
                            },
                        }
                    }
                    j += 1;
                }
                proof {
                    if out@.len() < cap {
                        assert(per_bucket(words@, remaining@, len as int, bl as int) =~= Seq::<
                            Seq<Seq<char>>,
                        >::empty());
                        assert(covered + Seq::<Seq<Seq<char>>>::empty() + per_lens(
                            words@,
                            remaining@,
                            len as int - 1,
                        ) =~= covered + per_lens(words@, remaining@, len as int - 1));
                    }
                }
            } else {
                proof {
                    assert(bucket(words@, len as int) =~= Seq::<Seq<char>>::empty());
                    assert(per_bucket(words@, remaining@, len as int, 0) =~= Seq::<
                        Seq<Seq<char>>,
                    >::empty());
                    assert(per_lens(words@, remaining@, len as int) == per_bucket(
                        words@,
                        remaining@,
                        len as int,
                        0,
                    ) + per_lens(words@, remaining@, len as int - 1));
                    assert(covered + (per_bucket(words@, remaining@, len as int, 0) + per_lens(
                        words@,
                        remaining@,
                        len as int - 1,
                    )) =~= covered + per_lens(words@, remaining@, len as int - 1));
                }
            }
        }
        len = len - 1;
    }
    proof {
        if out@.len() < cap {
            assert(per_lens(words@, remaining@, 0) =~= Seq::<Seq<Seq<char>>>::empty());
            assert(covered + Seq::<Seq<Seq<char>>>::empty() =~= covered);
            assert(full == covered);
            assert(full.take(min_int(cap as int, full.len() as int)) =~= full);
        } else {
            assert(min_int(cap as int, full.len() as int) == cap as int);
        }
    }
    out
}

/// One recursion step of the search: every combination of words of at most
/// `limit` characters each that consumes `remaining` exactly.
fn go(words: &WordMap, remaining: &Letters, limit: usize) -> (out: Vec<Vec<String>>)
    ensures
        out.deep_view() == search_spec(words@, remaining@, limit as int),
    decreases remaining@.len(),
{
    if remaining.len() == 0 {
        let combo: Vec<String> = Vec::new();
        let mut out: Vec<Vec<String>> = Vec::new();
        out.push(combo);
        proof {
            assert(out.deep_view() =~~= search_spec(words@, remaining@, limit as int));
        }
        return out;
    }
    let rl = remaining.len();
    let hi = if rl <= limit {
        rl
    } else {
        limit
    };
    let mut out: Vec<Vec<String>> = Vec::new();
    let mut len = hi;
    proof {
        assert(per_lens(words@, remaining@, hi as int) =~= out.deep_view() + per_lens(
            words@,
            remaining@,
            hi as int,
        ));
    }
    while len >= 1
        invariant
            len <= hi,
            remaining@.len() > 0,
            hi as int == min_int(remaining@.len() as int, limit as int),
            per_lens(words@, remaining@, hi as int) == out.deep_view() + per_lens(
                words@,
                remaining@,
                len as int,
            ),
        decreases len,
    {
        let bc = words.bucket_count();
        if len < bc {
            let bl = words.bucket_len(len);
            proof {
                assert(bucket(words@, len as int) == words@[len as int]);
            }
            let mut j: usize = 0;
            while j < bl
                invariant
                    j <= bl,
                    1 <= len < words@.len(),
                    len <= hi,
                    remaining@.len() > 0,
                    hi as int == min_int(remaining@.len() as int, limit as int),
                    bl == words@[len as int].len(),
                    per_lens(words@, remaining@, hi as int) == out.deep_view() + per_bucket(
                        words@,
                        remaining@,
                        len as int,
                        j as int,
                    ) + per_lens(words@, remaining@, len as int - 1),
                decreases bl - j,
            {
                let word = words.word_at(len, j);
                let ghost pb_here = per_bucket(words@, remaining@, len as int, j as int);
                let ghost pb_next = per_bucket(words@, remaining@, len as int, j + 1);
                match remaining.subtract(word.as_str()) {
                    Some(rest) => {
                        proof {
                            assert(rest@.len() < remaining@.len());
                        }
                        let subs = go(words, &rest, len);
                        let ghost mapped = search_spec(words@, rest@, len as int).map_values(
                            |c: Seq<Seq<char>>| seq![word@] + c,
                        );
                        proof {
                            assert(pb_here =~= mapped + pb_next) by {
                                assert(bucket(words@, len as int)[j as int] == word@);
                                assert(search_spec(words@, rest@, len as int).map_values(
                                    |c: Seq<Seq<char>>| seq![bucket(words@, len as int)[j as int]]
                                        + c,
                                ) =~= mapped);
                            }
                        }
                        let ghost base = out.deep_view();
                        let mut k: usize = 0;
                        while k < subs.len()
                            invariant
                                k <= subs@.len(),
                                subs.deep_view() == search_spec(words@, rest@, len as int),
                                mapped == search_spec(words@, rest@, len as int).map_values(
                                    |c: Seq<Seq<char>>| seq![word@] + c,
                                ),
                                out.deep_view() == base + mapped.take(k as int),
                            decreases subs@.len() - k,
                        {
                            let ghost sv = subs.deep_view()[k as int];
                            let mut combo: Vec<String> = Vec::new();
                            combo.push(word.clone());
                            proof {
                                assert(combo.deep_view() =~= seq![word@] + sv.take(0));
                            }
                            let sub = &subs[k];
                            proof {
                                assert(sub.deep_view() == subs.deep_view()[k as int]);
                            }
                            let mut t: usize = 0;
                            while t < sub.len()
                                invariant
                                    t <= sub@.len(),
                                    sub.deep_view() == sv,
                                    sv.len() == sub@.len(),
                                    combo.deep_view() == seq![word@] + sv.take(t as int),
                                decreases sub@.len() - t,
                            {
                                let ghost cd = combo.deep_view();
                                combo.push(sub[t].clone());
                                proof {
                                    assert(sub@[t as int].deep_view() == sv[t as int]);
                                    assert(combo.deep_view() =~= cd.push(sv[t as int]));
                                    assert(cd.push(sv[t as int]) =~= seq![word@] + sv.take(t + 1));
                                }
                                t += 1;
                            }
                            proof {
                                assert(sv.take(sv.len() as int) =~= sv);
                            }
                            let ghost od = out.deep_view();
                            out.push(combo);
                            proof {
                                assert(out.deep_view() =~= od.push(seq![word@] + sv));
                                assert(mapped[k as int] == seq![word@] + sv);
                                assert(mapped.take(k + 1) =~= mapped.take(k as int).push(
                                    mapped[k as int],
                                ));
                                assert(out.deep_view() =~= base + mapped.take(k + 1));
                            }
                            k += 1;
                        }
                        proof {
                            assert(mapped.take(mapped.len() as int) =~= mapped);
                            assert(out.deep_view() == base + mapped);
                            assert(out.deep_view() + pb_next =~= base + pb_here);
                            assert(per_lens(words@, remaining@, hi as int) =~= out.deep_view()
                                + per_bucket(words@, remaining@, len as int, j + 1) + per_lens(
                                words@,
                                remaining@,
                                len as int - 1,
                            ));
                        }
                    },
                    None => {
                        proof {
                            assert(pb_here == pb_next) by {
                                assert(bucket(words@, len as int)[j as int] == word@);
                                assert(!word@.to_multiset().subset_of(remaining@));
                                assert(pb_here =~= Seq::<Seq<Seq<char>>>::empty() + pb_next);
                                assert(Seq::<Seq<Seq<char>>>::empty() + pb_next =~= pb_next);
                            }
                        }
                    },
                }
                j += 1;
            }
            proof {
                assert(per_bucket(words@, remaining@, len as int, bl as int) =~= Seq::<
                    Seq<Seq<char>>,
                >::empty());
                assert(out.deep_view() + Seq::<Seq<Seq<char>>>::empty() =~= out.deep_view());
            }
        } else {
            proof {
                assert(bucket(words@, len as int) =~= Seq::<Seq<char>>::empty());
                assert(per_bucket(words@, remaining@, len as int, 0) =~= Seq::<
                    Seq<Seq<char>>,
                >::empty());
                assert(per_lens(words@, remaining@, len as int) == per_bucket(
                    words@,
                    remaining@,
                    len as int,
                    0,
                ) + per_lens(words@, remaining@, len as int - 1));
                assert(per_bucket(words@, remaining@, len as int, 0) + per_lens(
                    words@,
                    remaining@,
                    len as int - 1,
                ) =~= per_lens(words@, remaining@, len as int - 1));
            }
        }
        len = len - 1;
    }
    proof {
        assert(per_lens(words@, remaining@, 0) =~= Seq::<Seq<Seq<char>>>::empty());
        assert(out.deep_view() + Seq::<Seq<Seq<char>>>::empty() =~= out.deep_view());
        assert(search_spec(words@, remaining@, limit as int) == per_lens(
            words@,
            remaining@,
            hi as int,
        ));
    }
    out
}

} // verus!
