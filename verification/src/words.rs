//! A dictionary of words grouped by character length.

use vstd::prelude::*;

verus! {

/// The only error the dictionary can raise: no word survived the
/// minimum-length filter, so there is nothing to search.
#[derive(Clone, Copy, Debug, PartialEq, Eq)]
pub struct EmptyDictionary;

/// Whether a word of `len` characters passes the optional minimum-length
/// filter: with no minimum every word is kept.
pub open spec fn keeps(minlen: Option<usize>, len: nat) -> bool {
    match minlen {
        None => true,
        Some(m) => len >= m,
    }
}

/// The bucket of word length `len`: the lines of exactly `len` characters
/// that pass the filter, in input order.
pub open spec fn bucket_of(lines: Seq<Seq<char>>, minlen: Option<usize>, len: int) -> Seq<
    Seq<char>,
>
    decreases lines.len(),
{
    if lines.len() == 0 {
        Seq::empty()
    } else {
        let rest = bucket_of(lines.drop_last(), minlen, len);
        if lines.last().len() == len && keeps(minlen, lines.last().len()) {
            rest.push(lines.last())
        } else {
            rest
        }
    }
}

/// Every word of a bucket has exactly the bucket's length, passes the
/// filter, and is one of the input lines.
pub proof fn lemma_bucket_of_props(lines: Seq<Seq<char>>, minlen: Option<usize>, len: int)
    ensures
        forall|j: int|
            0 <= j < bucket_of(lines, minlen, len).len() ==> (#[trigger] bucket_of(
                lines,
                minlen,
                len,
            )[j]).len() == len,
        forall|j: int|
            0 <= j < bucket_of(lines, minlen, len).len() ==> keeps(
                minlen,
                (#[trigger] bucket_of(lines, minlen, len)[j]).len(),
            ),
        forall|j: int|
            0 <= j < bucket_of(lines, minlen, len).len() ==> lines.contains(
                #[trigger] bucket_of(lines, minlen, len)[j],
            ),
    decreases lines.len(),
{
    if lines.len() > 0 {
        let rest = bucket_of(lines.drop_last(), minlen, len);
        let cur = bucket_of(lines, minlen, len);
        lemma_bucket_of_props(lines.drop_last(), minlen, len);
        assert(lines[lines.len() - 1] == lines.last());
        assert(lines.contains(lines.last()));
        assert forall|j: int|
            0 <= j < cur.len() implies (cur[j].len() == len && keeps(minlen, cur[j].len())
            && lines.contains(cur[j])) by {
            if j < rest.len() {
                assert(cur[j] == rest[j]);
                assert(lines.drop_last().contains(rest[j]));
                let k = choose|k: int|
                    0 <= k < lines.drop_last().len() && lines.drop_last()[k] == rest[j];
                assert(lines[k] == rest[j]);
                assert(lines.contains(rest[j]));
            } else {
                assert(cur[j] == lines.last());
            }
        }
    }
}

/// Law (minimum-length filter): when a minimum of `k` characters is set,
/// no shorter word stands in any bucket of the index.
pub proof fn lemma_minimum_length_filter(lines: Seq<Seq<char>>, k: usize, len: int)
    ensures
        forall|j: int|
            0 <= j < bucket_of(lines, Some(k), len).len() ==> (#[trigger] bucket_of(
                lines,
                Some(k),
                len,
            )[j]).len() >= k,
{
    lemma_bucket_of_props(lines, Some(k), len);
}

/// Shape of a well-formed length-grouped dictionary: at least one bucket,
/// the last bucket non-empty (so the largest length is the last index), and
/// every word stored under exactly its own character count.
pub open spec fn wf_index(w: Seq<Seq<Seq<char>>>) -> bool {
    &&& w.len() > 0
    &&& w[w.len() - 1].len() > 0
    &&& forall|i: int, j: int|
        0 <= i < w.len() && 0 <= j < w[i].len() ==> (#[trigger] w[i][j]).len() == i
}

/// An immutable dictionary of words, partitioned by character length.
/// Abstractly it is a sequence of buckets: the bucket at index `i` holds,
/// in insertion order, the words of exactly `i` characters.
pub struct WordMap {
    buckets: Vec<Vec<String>>,
}

impl View for WordMap {
    type V = Seq<Seq<Seq<char>>>;

    closed spec fn view(&self) -> Seq<Seq<Seq<char>>> {
        self.buckets.deep_view()
    }
}

impl WordMap {
    #[verifier::type_invariant]
    closed spec fn inv(self) -> bool {
        wf_index(self.buckets.deep_view())
    }

    /// Groups `lines` by character length, discarding the words shorter
    /// than the minimum when one is given. Fails exactly when no line is
    /// kept, including the case of no lines at all.
    pub fn build(lines: &Vec<String>, minlen: Option<usize>) -> (r: Result<WordMap, EmptyDictionary>)
        ensures
            r is Ok <==> exists|k: int|
                0 <= k < lines@.len() && keeps(minlen, lines.deep_view()[k].len()),
            r matches Ok(m) ==> {
                &&& wf_index(m@)
                &&& m@.len() > 0
                &&& m@[m@.len() - 1].len() > 0
                &&& forall|len: int|
                    0 <= len < m@.len() ==> m@[len] == bucket_of(lines.deep_view(), minlen, len)
                &&& forall|k: int|
                    0 <= k < lines@.len() && keeps(minlen, lines.deep_view()[k].len())
                        ==> lines.deep_view()[k].len() < m@.len()
            },
    {
        let ghost lv = lines.deep_view();
        let mut buckets: Vec<Vec<String>> = Vec::new();
        let mut i: usize = 0;
        while i < lines.len()
            invariant
                lv == lines.deep_view(),
                lv.len() == lines@.len(),
                i <= lines@.len(),
                forall|len: int|
                    0 <= len < buckets@.len() ==> buckets.deep_view()[len] == bucket_of(
                        lv.take(i as int),
                        minlen,
                        len,
                    ),
                forall|k: int|
                    0 <= k < i && keeps(minlen, lv[k].len()) ==> lv[k].len() < buckets@.len(),
                buckets@.len() > 0 ==> buckets.deep_view()[buckets@.len() - 1].len() > 0,
                buckets@.len() == 0 ==> forall|k: int| 0 <= k < i ==> !keeps(minlen, lv[k].len()),
                buckets@.len() > 0 ==> exists|k: int| 0 <= k < i && keeps(minlen, lv[k].len()),
            decreases lines@.len() - i,
        {
            let w = &lines[i];
            let len = w.unicode_len();
            proof {
                assert(lv[i as int] == w@);
                assert(lv.take(i + 1).drop_last() =~= lv.take(i as int));
                assert(lv.take(i + 1).last() == lv[i as int]);
            }
            let keep = match minlen {
                None => true,
                Some(m) => len >= m,
            };
            if keep {
                let ghost grown = buckets.deep_view();
                let ghost glen = buckets@.len();
                while buckets.len() <= len
                    invariant
                        forall|len2: int|
                            0 <= len2 < glen ==> buckets.deep_view()[len2] == grown[len2],
                        forall|len2: int|
                            glen <= len2 < buckets@.len() ==> buckets.deep_view()[len2] == Seq::<
                                Seq<char>,
                            >::empty(),
                        buckets@.len() >= glen,
                        glen == grown.len(),
                        buckets@.len() > glen ==> buckets@.len() <= len + 1,
                    decreases len + 1 - buckets@.len(),
                {
                    let empty_bucket: Vec<String> = Vec::new();
                    let ghost ge = empty_bucket.deep_view();
                    let ghost ob = buckets@;
                    let ghost od = buckets.deep_view();
                    proof {
                        assert(ge =~= Seq::<Seq<char>>::empty());
                    }
                    buckets.push(empty_bucket);
                    proof {
                        assert forall|len2: int|
                            0 <= len2 < buckets@.len() implies buckets.deep_view()[len2] == (
                        if len2 < ob.len() {
                            od[len2]
                        } else {
                            ge
                        }) by {
                            if len2 < ob.len() {
                                assert(buckets@[len2] == ob[len2]);
                            }
                        }
                    }
                }
                proof {
                    assert forall|len2: int|
                        0 <= len2 < buckets@.len() implies buckets.deep_view()[len2] == bucket_of(
                        lv.take(i as int),
                        minlen,
                        len2,
                    ) by {
                        if len2 < glen {
                            assert(grown[len2] == bucket_of(lv.take(i as int), minlen, len2));
                            assert(buckets.deep_view()[len2] == grown[len2]);
                        } else {
                            lemma_bucket_of_props(lv.take(i as int), minlen, len2);
                            if bucket_of(lv.take(i as int), minlen, len2).len() > 0 {
                                let w0 = bucket_of(lv.take(i as int), minlen, len2)[0];
                                assert(lv.take(i as int).contains(w0));
                                let k = choose|k: int|
                                    0 <= k < lv.take(i as int).len() && lv.take(i as int)[k] == w0;
                                assert(lv[k] == w0);
                                assert(lv[k].len() == len2 && keeps(minlen, lv[k].len()));
                                assert(false);
                            }
                            assert(bucket_of(lv.take(i as int), minlen, len2) =~= Seq::<
                                Seq<char>,
                            >::empty());
                        }
                    }
                }
                let ghost pre = buckets.deep_view();
                let ghost pv = buckets@;
                let mut b = buckets.remove(len);
                b.push(w.clone());
                buckets.insert(len, b);
                proof {
                    assert(buckets@ =~= pv.update(len as int, b));
                    assert(b@ =~= pv[len as int]@.push(*w));
                    assert forall|len2: int|
                        0 <= len2 < buckets@.len() && len2 != len implies buckets.deep_view()[len2]
                        == pre[len2] by {
                        assert(buckets@[len2] == pv[len2]);
                    }
                    assert(buckets.deep_view()[len as int] =~= pre[len as int].push(w@)) by {
                        assert(buckets@[len as int] == b);
                        assert forall|t: int|
                            0 <= t < pv[len as int]@.len() implies b@[t].deep_view()
                            == pre[len as int][t] by {
                            assert(b@[t] == pv[len as int]@[t]);
                        }
                    }
                    assert forall|len2: int|
                        0 <= len2 < buckets@.len() implies buckets.deep_view()[len2] == bucket_of(
                        lv.take(i + 1),
                        minlen,
                        len2,
                    ) by {
                        assert(pre[len2] == bucket_of(lv.take(i as int), minlen, len2));
                        if len2 == len {
                            assert(lv.take(i + 1).last().len() == len2);
                            assert(keeps(minlen, lv.take(i + 1).last().len()));
                            assert(bucket_of(lv.take(i + 1), minlen, len2) == bucket_of(
                                lv.take(i as int),
                                minlen,
                                len2,
                            ).push(lv[i as int]));
                            assert(buckets.deep_view()[len2] == pre[len as int].push(w@));
                        } else {
                            assert(bucket_of(lv.take(i + 1), minlen, len2) == bucket_of(
                                lv.take(i as int),
                                minlen,
                                len2,
                            ));
                        }
                    }
                    assert(buckets.deep_view()[buckets@.len() - 1].len() > 0) by {
                        if len as int == buckets@.len() - 1 {
                            assert(buckets.deep_view()[len as int].len() > 0);
                        } else {
                            assert(buckets@.len() == glen);
                            assert(buckets.deep_view()[buckets@.len() - 1] == pre[buckets@.len()
                                - 1]);
                            assert(pre[buckets@.len() - 1] == grown[buckets@.len() - 1]);
                        }
                    }
                }
            } else {
                proof {
                    assert forall|len2: int| 0 <= len2 < buckets@.len() implies bucket_of(
                        lv.take(i + 1),
                        minlen,
                        len2,
                    ) == bucket_of(lv.take(i as int), minlen, len2) by {
                        assert(!keeps(minlen, lv[i as int].len()));
                    }
                }
            }
            i += 1;
        }
        proof {
            assert(lv.take(lines@.len() as int) =~= lv);
        }
        if buckets.len() == 0 {
            return Err(EmptyDictionary);
        }
        proof {
            assert forall|a: int, j: int|
                0 <= a < buckets.deep_view().len() && 0 <= j < buckets.deep_view()[a].len() implies (
            #[trigger] buckets.deep_view()[a][j]).len() == a by {
                lemma_bucket_of_props(lv, minlen, a);
            }
        }
        let m = WordMap { buckets };
        Ok(m)
    }

    /// The largest word length present: the index of the last bucket.
    pub fn maxlen(&self) -> (n: usize)
        ensures
            n as int == self@.len() - 1,
            self@[n as int].len() > 0,
    {
        proof {
            use_type_invariant(self);
        }
        self.buckets.len() - 1
    }

    /// How many buckets there are: one more than the largest word length.
    pub fn bucket_count(&self) -> (n: usize)
        ensures
            n == self@.len(),
            n > 0,
    {
        proof {
            use_type_invariant(self);
        }
        self.buckets.len()
    }

    /// How many words of exactly `len` characters the dictionary holds.
    pub fn bucket_len(&self, len: usize) -> (n: usize)
        requires
            len < self@.len(),
        ensures
            n == self@[len as int].len(),
    {
        self.buckets[len].len()
    }

    /// The `j`-th word of exactly `len` characters, in insertion order.
    pub fn word_at(&self, len: usize, j: usize) -> (w: &String)
        requires
            len < self@.len(),
            j < self@[len as int].len(),
        ensures
            w@ == self@[len as int][j as int],
            w@.len() == len,
    {
        proof {
            use_type_invariant(self);
        }
        &self.buckets[len][j]
    }
}

} // verus!
