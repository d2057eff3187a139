//! The multiset of letters that remain to be consumed during a search.

use vstd::multiset::Multiset;
use vstd::prelude::*;

verus! {

broadcast use vstd::seq_lib::group_to_multiset_ensures, vstd::multiset::group_multiset_axioms;

/// An immutable bag of characters: the letters of the target string that a
/// search branch has not yet consumed. Abstractly it is a `Multiset<char>`;
/// concretely it stores one `char` per remaining occurrence.
pub struct Letters {
    chars: Vec<char>,
}

impl View for Letters {
    type V = Multiset<char>;

    closed spec fn view(&self) -> Multiset<char> {
        self.chars@.to_multiset()
    }
}

impl Letters {
    /// Builds the letter multiset of `s`: one occurrence per character of
    /// `s`, multi-byte characters counting as one letter each.
    pub fn new(s: &str) -> (r: Self)
        ensures
            r@ == s@.to_multiset(),
    {
        let n = s.unicode_len();
        let mut chars: Vec<char> = Vec::new();
        let mut i: usize = 0;
        while i < n
            invariant
                n == s@.len(),
                i <= n,
                chars@ == s@.take(i as int),
            decreases n - i,
        {
            let c = s.get_char(i);
            proof {
                assert(s@.take(i + 1) =~= s@.take(i as int).push(s@[i as int]));
            }
            chars.push(c);
            i += 1;
        }
        proof {
            assert(s@.take(n as int) =~= s@);
        }
        Letters { chars }
    }

    /// Attempts to consume the letters of `s` out of `self`. Succeeds, with
    /// the remaining letters, exactly when every character of `s` occurs in
    /// `self` at least as often as in `s`; `self` itself is never changed,
    /// so a failed or completed branch can fall back to it.
    pub fn subtract(&self, s: &str) -> (r: Option<Self>)
        ensures
            r is Some <==> s@.to_multiset().subset_of(self@),
            r matches Some(t) ==> t@ == self@.sub(s@.to_multiset()),
    {
        let n = s.unicode_len();
        let mut cur: Vec<char> = Vec::new();
        let mut k: usize = 0;
        while k < self.chars.len()
            invariant
                k <= self.chars@.len(),
                cur@ == self.chars@.take(k as int),
            decreases self.chars@.len() - k,
        {
            proof {
                assert(self.chars@.take(k + 1) =~= self.chars@.take(k as int).push(
                    self.chars@[k as int],
                ));
            }
            cur.push(self.chars[k]);
            k += 1;
        }
        proof {
            assert(self.chars@.take(self.chars@.len() as int) =~= self.chars@);
        }
        let ghost orig = self.chars@.to_multiset();
        let mut i: usize = 0;
        while i < n
            invariant
                n == s@.len(),
                i <= n,
                orig == self@,
                s@.take(i as int).to_multiset().subset_of(orig),
                cur@.to_multiset() == orig.sub(s@.take(i as int).to_multiset()),
            decreases n - i,
        {
            let c = s.get_char(i);
            let ghost pre = s@.take(i as int).to_multiset();
            proof {
                assert(s@.take(i + 1) =~= s@.take(i as int).push(c));
                assert(s@.take(i + 1).to_multiset() == pre.insert(c));
            }
            let mut j: usize = 0;
            let mut found: bool = false;
            while j < cur.len() && !found
                invariant
                    j <= cur@.len(),
                    !found ==> forall|t: int| 0 <= t < j ==> cur@[t] != c,
                    found ==> j < cur@.len() && cur@[j as int] == c,
                decreases cur@.len() - j + (if found { 0int } else { 1int }),
            {
                if cur[j] == c {
                    found = true;
                } else {
                    j += 1;
                }
            }
            if !found {
                proof {
                    assert(!cur@.contains(c));
                    assert(cur@.to_multiset().count(c) == 0);
                    assert(orig.count(c) <= pre.count(c));
                    assert(s@ =~= s@.take(i + 1) + s@.skip(i + 1));
                    vstd::seq_lib::lemma_multiset_commutative(s@.take(i + 1), s@.skip(i + 1));
                    assert(s@.to_multiset().count(c) >= s@.take(i + 1).to_multiset().count(c));
                    assert(s@.take(i + 1).to_multiset().count(c) == pre.count(c) + 1);
                    assert(s@.to_multiset().count(c) > orig.count(c));
                    assert(!s@.to_multiset().subset_of(self@));
                }
                return None;
            }
            proof {
                assert(cur@.to_multiset().count(c) > 0);
                assert(orig.count(c) >= pre.count(c) + 1);
                assert forall|v: char| s@.take(i + 1).to_multiset().count(v) <= orig.count(
                    v,
                ) by {}
                assert(s@.take(i + 1).to_multiset().subset_of(orig));
            }
            let ghost before = cur@;
            let _ = cur.remove(j);
            proof {
                assert(cur@.to_multiset() == before.to_multiset().remove(c));
                assert forall|v: char| orig.sub(pre).remove(c).count(v) == orig.sub(
                    pre.insert(c),
                ).count(v) by {}
                assert(orig.sub(pre).remove(c) =~= orig.sub(pre.insert(c)));
            }
            i += 1;
        }
        proof {
            assert(s@.take(n as int) =~= s@);
        }
        Some(Letters { chars: cur })
    }

    /// How many letters remain.
    pub fn len(&self) -> (n: usize)
        ensures
            n == self@.len(),
    {
        self.chars.len()
    }
}

} // verus!
