//! A flat byte key-value store.
//!
//! This is the leaf of the design: one in-memory, ordered list of
//! `(key, value)` byte pairs, viewed abstractly as a partial map from byte
//! sequences to byte sequences.  Every higher layer (collections, viewing
//! keys, the global configuration) lives inside this one map under its own
//! key namespace.

use vstd::map::*;
use vstd::prelude::*;

verus! {

/// Position of the first entry of `s` whose key is `k`, or `-1` if none.
pub open spec fn spec_find(s: Seq<(Vec<u8>, Vec<u8>)>, k: Seq<u8>) -> int
    decreases s.len(),
{
    if s.len() == 0 {
        -1
    } else if s[0].0@ == k {
        0
    } else {
        let r = spec_find(s.drop_first(), k);
        if r < 0 {
            -1
        } else {
            r + 1
        }
    }
}

pub proof fn lemma_find_bounds(s: Seq<(Vec<u8>, Vec<u8>)>, k: Seq<u8>)
    ensures
        spec_find(s, k) >= 0 ==> spec_find(s, k) < s.len() && s[spec_find(s, k)].0@ == k,
        spec_find(s, k) >= 0 ==> forall|j: int| 0 <= j < spec_find(s, k) ==> s[j].0@ != k,
        spec_find(s, k) < 0 ==> forall|j: int| 0 <= j < s.len() ==> s[j].0@ != k,
    decreases s.len(),
{
    if s.len() > 0 {
        if s[0].0@ != k {
            lemma_find_bounds(s.drop_first(), k);
            assert forall|j: int| 0 <= j < s.len() && spec_find(s, k) < 0 implies s[j].0@ != k by {
                if j > 0 {
                    assert(s.drop_first()[j - 1] == s[j]);
                }
            }
            if spec_find(s, k) >= 0 {
                assert(s.drop_first()[spec_find(s, k) - 1] == s[spec_find(s, k)]);
                assert forall|j: int| 0 <= j < spec_find(s, k) implies s[j].0@ != k by {
                    if j > 0 {
                        assert(s.drop_first()[j - 1] == s[j]);
                    }
                }
            }
        }
    }
}

/// `spec_find` reads only the keys, so two entry lists with equal keys agree.
pub proof fn lemma_find_same_keys(s1: Seq<(Vec<u8>, Vec<u8>)>, s2: Seq<(Vec<u8>, Vec<u8>)>, k: Seq<u8>)
    requires
        s1.len() == s2.len(),
        forall|i: int| 0 <= i < s1.len() ==> s1[i].0@ == s2[i].0@,
    ensures
        spec_find(s1, k) == spec_find(s2, k),
    decreases s1.len(),
{
    if s1.len() > 0 {
        assert forall|i: int| 0 <= i < s1.drop_first().len() implies s1.drop_first()[i].0@
            == s2.drop_first()[i].0@ by {
            assert(s1.drop_first()[i] == s1[i + 1]);
            assert(s2.drop_first()[i] == s2[i + 1]);
        }
        lemma_find_same_keys(s1.drop_first(), s2.drop_first(), k);
    }
}

/// How `spec_find` behaves on a list extended by one entry at the end.
pub proof fn lemma_find_push(s: Seq<(Vec<u8>, Vec<u8>)>, p: (Vec<u8>, Vec<u8>), k: Seq<u8>)
    ensures
        spec_find(s, k) >= 0 ==> spec_find(s.push(p), k) == spec_find(s, k),
        spec_find(s, k) < 0 && p.0@ == k ==> spec_find(s.push(p), k) == s.len(),
        spec_find(s, k) < 0 && p.0@ != k ==> spec_find(s.push(p), k) < 0,
    decreases s.len(),
{
    if s.len() == 0 {
        assert(s.push(p)[0] == p);
        if p.0@ != k {
            assert(s.push(p).drop_first() =~= Seq::<(Vec<u8>, Vec<u8>)>::empty());
            assert(spec_find(Seq::<(Vec<u8>, Vec<u8>)>::empty(), k) == -1);
            assert(spec_find(s.push(p), k) == -1);
        }
    } else {
        assert(s.push(p)[0] == s[0]);
        if s[0].0@ != k {
            assert(s.push(p).drop_first() =~= s.drop_first().push(p));
            lemma_find_push(s.drop_first(), p, k);
            assert(spec_find(s.push(p).drop_first(), k) == spec_find(s.drop_first().push(p), k));
        }
    }
}

/// The flat byte store.  Abstractly, a partial map `Seq<u8> -> Seq<u8>`.
pub struct Store {
    entries: Vec<(Vec<u8>, Vec<u8>)>,
}

impl View for Store {
    type V = Map<Seq<u8>, Seq<u8>>;

    closed spec fn view(&self) -> Map<Seq<u8>, Seq<u8>> {
        Map::new(
            |k: Seq<u8>| spec_find(self.entries@, k) >= 0,
            |k: Seq<u8>| self.entries@[spec_find(self.entries@, k)].1@,
        )
    }
}

/// Byte-vector equality, decided without any short-circuit on content.
pub fn bytes_eq(a: &Vec<u8>, b: &Vec<u8>) -> (r: bool)
    ensures
        r == (a@ == b@),
{
    if a.len() != b.len() {
        return false;
    }
    let mut i: usize = 0;
    let mut same: bool = true;
    proof {
        assert(a@.subrange(0, 0) =~= b@.subrange(0, 0));
    }
    while i < a.len()
        invariant
            a@.len() == b@.len(),
            0 <= i <= a@.len(),
            same == (a@.subrange(0, i as int) == b@.subrange(0, i as int)),
        decreases a@.len() - i,
    {
        let eq_here = a[i] == b[i];
        proof {
            assert(a@.subrange(0, i + 1).subrange(0, i as int) =~= a@.subrange(0, i as int));
            assert(b@.subrange(0, i + 1).subrange(0, i as int) =~= b@.subrange(0, i as int));
            assert(a@.subrange(0, i + 1)[i as int] == a@[i as int]);
            assert(b@.subrange(0, i + 1)[i as int] == b@[i as int]);
            if same && eq_here {
                assert(a@.subrange(0, i + 1) =~= a@.subrange(0, i as int).push(a@[i as int]));
                assert(b@.subrange(0, i + 1) =~= b@.subrange(0, i as int).push(b@[i as int]));
            }
        }
        same = same && eq_here;
        i = i + 1;
    }
    proof {
        assert(a@.subrange(0, a@.len() as int) =~= a@);
        assert(b@.subrange(0, b@.len() as int) =~= b@);
    }
    same
}

impl Store {
    /// An empty store: the empty map.
    pub fn new() -> (r: Store)
        ensures
            r@ == Map::<Seq<u8>, Seq<u8>>::empty(),
    {
        let r = Store { entries: Vec::new() };
        proof {
            assert(r@ =~= Map::<Seq<u8>, Seq<u8>>::empty());
        }
        r
    }

    /// Read the value stored under `k`, if any.
    pub fn get<'a>(&'a self, k: &Vec<u8>) -> (r: Option<&'a Vec<u8>>)
        ensures
            match r {
                Some(v) => self@.dom().contains(k@) && v@ == self@[k@],
                None => !self@.dom().contains(k@),
            },
    {
        let mut i: usize = 0;
        while i < self.entries.len()
            invariant
                0 <= i <= self.entries@.len(),
                forall|j: int| 0 <= j < i ==> self.entries@[j].0@ != k@,
            decreases self.entries@.len() - i,
        {
            if bytes_eq(&self.entries[i].0, k) {
                proof {
                    lemma_find_bounds(self.entries@, k@);
                    if spec_find(self.entries@, k@) != i {
                        assert(false);
                    }
                }
                return Some(&self.entries[i].1);
            }
            i = i + 1;
        }
        proof {
            lemma_find_bounds(self.entries@, k@);
        }
        None
    }

    /// Write `v` under `k`, overwriting any prior value.
    #[verifier::loop_isolation(false)]
    pub fn set(&mut self, k: Vec<u8>, v: Vec<u8>)
        ensures
            final(self)@ == old(self)@.insert(k@, v@),
    {
        let ghost old_entries = self.entries@;
        let ghost old_view = self@;
        let mut i: usize = 0;
        while i < self.entries.len()
            invariant
                self.entries@ == old_entries,
                0 <= i <= self.entries@.len(),
                forall|j: int| 0 <= j < i ==> self.entries@[j].0@ != k@,
            decreases self.entries@.len() - i,
        {
            if bytes_eq(&self.entries[i].0, &k) {
                let ghost kk = k@;
                let ghost vv = v@;
                self.entries.set(i, (k, v));
                proof {
                    let new_s = self.entries@;
                    lemma_find_bounds(old_entries, kk);
                    assert(old_entries[i as int].0@ == kk);
                    assert(spec_find(old_entries, kk) == i);
                    assert(new_s[i as int].0@ == kk && new_s[i as int].1@ == vv);
                    let cur = self@;
                    let goal = old_view.insert(kk, vv);
                    assert_maps_equal!(cur, goal, k2 => {
                        lemma_find_same_keys(new_s, old_entries, k2);
                        lemma_find_bounds(old_entries, k2);
                        assert(spec_find(new_s, k2) == spec_find(old_entries, k2));
                        if k2 == kk {
                            assert(spec_find(old_entries, k2) == i);
                            assert(new_s[i as int].1@ == vv);
                        } else if spec_find(old_entries, k2) >= 0 {
                            assert(spec_find(old_entries, k2) != i);
                            assert(new_s[spec_find(old_entries, k2)].1@
                                == old_entries[spec_find(old_entries, k2)].1@);
                        }
                    });
                    assert(self@ == old_view.insert(kk, vv));
                }
                return;
            }
            i = i + 1;
        }
        let ghost kk = k@;
        let ghost vv = v@;
        self.entries.push((k, v));
        proof {
            let new_s = self.entries@;
            lemma_find_bounds(old_entries, kk);
            assert(spec_find(old_entries, kk) < 0);
            assert(new_s.len() == old_entries.len() + 1);
            assert(new_s[old_entries.len() as int] == new_s.last());
            assert(new_s.last().0@ == kk && new_s.last().1@ == vv);
            assert(new_s =~= old_entries.push(new_s.last()));
            let cur = self@;
            let goal = old_view.insert(kk, vv);
            assert_maps_equal!(cur, goal, k2 => {
                lemma_find_push(old_entries, new_s.last(), k2);
                lemma_find_bounds(old_entries, k2);
                if k2 == kk {
                    assert(spec_find(new_s, k2) == old_entries.len());
                    assert(new_s[old_entries.len() as int].1@ == vv);
                } else if spec_find(old_entries, k2) >= 0 {
                    assert(spec_find(new_s, k2) == spec_find(old_entries, k2));
                    assert(new_s[spec_find(old_entries, k2)].1@
                        == old_entries[spec_find(old_entries, k2)].1@);
                } else {
                    assert(spec_find(new_s, k2) < 0);
                }
            });
            assert(self@ == old_view.insert(kk, vv));
        }
    }
}

} // verus!
