//! The attribute mapping of a gene feature line: attribute keys to values,
//! keys unique, a later binding for a key replacing an earlier one.

use vstd::prelude::*;

verus! {

/// The mapping denoted by a sequence of key/value pairs when each pair is
/// inserted in order, so that the last binding of a key wins.
pub open spec fn pairs_map(s: Seq<(String, String)>) -> Map<Seq<char>, Seq<char>>
    decreases s.len(),
{
    if s.len() == 0 {
        Map::empty()
    } else {
        pairs_map(s.drop_last()).insert(s.last().0@, s.last().1@)
    }
}

pub open spec fn unique_keys(s: Seq<(String, String)>) -> bool {
    forall|i: int, j: int| 0 <= i < j < s.len() ==> (#[trigger] s[i]).0@ != (#[trigger] s[j]).0@
}

pub proof fn lemma_pairs_map_contains(s: Seq<(String, String)>, k: Seq<char>)
    ensures
        pairs_map(s).contains_key(k) <==> exists|i: int|
            0 <= i < s.len() && (#[trigger] s[i]).0@ == k,
    decreases s.len(),
{
    if s.len() > 0 {
        lemma_pairs_map_contains(s.drop_last(), k);
        if s.last().0@ == k {
            assert((s[s.len() - 1]).0@ == k);
        } else if pairs_map(s).contains_key(k) {
            let i = choose|i: int| 0 <= i < s.len() - 1 && (#[trigger] s.drop_last()[i]).0@ == k;
            assert((s[i]).0@ == k);
        } else {
            assert forall|i: int| 0 <= i < s.len() implies (#[trigger] s[i]).0@ != k by {
                if i < s.len() - 1 {
                    assert(s.drop_last()[i] == s[i]);
                }
            }
        }
    }
}

pub proof fn lemma_pairs_map_len(s: Seq<(String, String)>)
    requires
        unique_keys(s),
    ensures
        pairs_map(s).len() == s.len(),
        pairs_map(s).dom().finite(),
    decreases s.len(),
{
    if s.len() > 0 {
        assert forall|i: int, j: int| 0 <= i < j < s.drop_last().len() implies (#[trigger] s.drop_last()[i]).0@
            != (#[trigger] s.drop_last()[j]).0@ by {
            assert(s.drop_last()[i] == s[i]);
            assert(s.drop_last()[j] == s[j]);
        }
        lemma_pairs_map_len(s.drop_last());
        lemma_pairs_map_contains(s.drop_last(), s.last().0@);
        assert forall|i: int| 0 <= i < s.len() - 1 implies (#[trigger] s.drop_last()[i]).0@
            != s.last().0@ by {
            assert(s.drop_last()[i] == s[i]);
            assert(s.last() == s[s.len() - 1]);
        }
        assert(!pairs_map(s.drop_last()).contains_key(s.last().0@));
    }
}

/// With unique keys, the pair at index `i` gives the value of its key.
pub proof fn lemma_pairs_map_at(s: Seq<(String, String)>, i: int)
    requires
        unique_keys(s),
        0 <= i < s.len(),
    ensures
        pairs_map(s).contains_key(s[i].0@),
        pairs_map(s)[s[i].0@] == s[i].1@,
    decreases s.len(),
{
    if i == s.len() - 1 {
        assert(s.last() == s[i]);
    } else {
        assert forall|x: int, y: int| 0 <= x < y < s.drop_last().len() implies (#[trigger] s.drop_last()[x]).0@
            != (#[trigger] s.drop_last()[y]).0@ by {
            assert(s.drop_last()[x] == s[x]);
            assert(s.drop_last()[y] == s[y]);
        }
        assert(s.drop_last()[i] == s[i]);
        lemma_pairs_map_at(s.drop_last(), i);
        assert(s.last() == s[s.len() - 1]);
        assert(s[i].0@ != s.last().0@);
    }
}

/// With unique keys, replacing the pair at index `i` updates its key alone.
pub proof fn lemma_pairs_map_update(s: Seq<(String, String)>, i: int, k: String, v: String)
    requires
        unique_keys(s),
        0 <= i < s.len(),
        s[i].0@ == k@,
    ensures
        pairs_map(s.update(i, (k, v))) == pairs_map(s).insert(k@, v@),
    decreases s.len(),
{
    let s2 = s.update(i, (k, v));
    if i == s.len() - 1 {
        assert(s2.drop_last() =~= s.drop_last());
        assert(s2.last() == (k, v));
        assert(pairs_map(s2) == pairs_map(s.drop_last()).insert(k@, v@));
        assert(pairs_map(s.drop_last()).insert(s.last().0@, s.last().1@).insert(k@, v@)
            =~= pairs_map(s.drop_last()).insert(k@, v@));
    } else {
        assert forall|x: int, y: int| 0 <= x < y < s.drop_last().len() implies (#[trigger] s.drop_last()[x]).0@
            != (#[trigger] s.drop_last()[y]).0@ by {
            assert(s.drop_last()[x] == s[x]);
            assert(s.drop_last()[y] == s[y]);
        }
        assert(s.drop_last()[i] == s[i]);
        lemma_pairs_map_update(s.drop_last(), i, k, v);
        assert(s2.drop_last() =~= s.drop_last().update(i, (k, v)));
        assert(s2.last() == s.last());
        assert(s.last() == s[s.len() - 1]);
        assert(s.last().0@ != k@);
        assert(pairs_map(s2) == pairs_map(s.drop_last()).insert(k@, v@).insert(
            s.last().0@,
            s.last().1@,
        ));
        assert(pairs_map(s.drop_last()).insert(k@, v@).insert(s.last().0@, s.last().1@)
            =~= pairs_map(s.drop_last()).insert(s.last().0@, s.last().1@).insert(k@, v@));
    }
}

/// An attribute mapping with unique keys, viewed as a `Map` from key
/// characters to value characters.
#[derive(Debug)]
pub struct Attrs {
    pairs: Vec<(String, String)>,
}

impl View for Attrs {
    type V = Map<Seq<char>, Seq<char>>;

    closed spec fn view(&self) -> Map<Seq<char>, Seq<char>> {
        pairs_map(self.pairs@)
    }
}

impl Attrs {
    pub closed spec fn wf(&self) -> bool {
        unique_keys(self.pairs@)
    }

    pub fn new() -> (r: Attrs)
        ensures
            r.wf(),
            r@ == Map::<Seq<char>, Seq<char>>::empty(),
    {
        Attrs { pairs: Vec::new() }
    }

    /// Binds `k` to `v`, replacing any earlier binding of `k`.
    pub fn insert(&mut self, k: String, v: String)
        requires
            old(self).wf(),
        ensures
            final(self).wf(),
            final(self)@ == old(self)@.insert(k@, v@),
    {
        let n = self.pairs.len();
        let mut i: usize = 0;
        while i < n
            invariant
                i <= n,
                n == self.pairs.len(),
                unique_keys(self.pairs@),
                self.pairs@ == old(self).pairs@,
                forall|j: int| 0 <= j < i ==> (#[trigger] self.pairs@[j]).0@ != k@,
            decreases n - i,
        {
            if self.pairs[i].0.eq(&k) {
                proof {
                    lemma_pairs_map_update(self.pairs@, i as int, k, v);
                }
                self.pairs.set(i, (k, v));
                proof {
                    let s2 = self.pairs@;
                    let o = old(self).pairs@;
                    assert forall|x: int, y: int| 0 <= x < y < s2.len() implies (
                    #[trigger] s2[x]).0@ != (#[trigger] s2[y]).0@ by {
                        assert(o[x].0@ != o[y].0@);
                        if x == i as int {
                            assert(s2[x].0@ == o[x].0@);
                            assert(s2[y] == o[y]);
                        } else if y == i as int {
                            assert(s2[y].0@ == o[y].0@);
                            assert(s2[x] == o[x]);
                        } else {
                            assert(s2[x] == o[x]);
                            assert(s2[y] == o[y]);
                        }
                    }
                }
                return ;
            }
            i += 1;
        }
        proof {
            assert(self.pairs@.push((k, v)).drop_last() =~= self.pairs@);
            assert(self.pairs@.push((k, v)).last() == (k, v));
        }
        self.pairs.push((k, v));
        proof {
            let s2 = self.pairs@;
            assert forall|x: int, y: int| 0 <= x < y < s2.len() implies (#[trigger] s2[x]).0@ != (
            #[trigger] s2[y]).0@ by {
                if y == s2.len() - 1 {
                    assert(s2[x] == old(self).pairs@[x]);
                } else {
                    assert(s2[x] == old(self).pairs@[x]);
                    assert(s2[y] == old(self).pairs@[y]);
                }
            }
        }
    }

    /// Looks `k` up, yielding the value it is bound to, if any.
    pub fn get(&self, k: &str) -> (r: Option<&String>)
        requires
            self.wf(),
        ensures
            match r {
                Some(v) => self@.contains_key(k@) && v@ == self@[k@],
                None => !self@.contains_key(k@),
            },
    {
        let ks = k.to_owned();
        let n = self.pairs.len();
        let mut i: usize = 0;
        while i < n
            invariant
                i <= n,
                n == self.pairs.len(),
                unique_keys(self.pairs@),
                ks@ == k@,
                forall|j: int| 0 <= j < i ==> (#[trigger] self.pairs@[j]).0@ != k@,
            decreases n - i,
        {
            if self.pairs[i].0.eq(&ks) {
                proof {
                    lemma_pairs_map_at(self.pairs@, i as int);
                }
                return Some(&self.pairs[i].1);
            }
            i += 1;
        }
        proof {
            lemma_pairs_map_contains(self.pairs@, k@);
        }
        None
    }

    /// The number of attribute entries.
    pub fn len(&self) -> (n: usize)
        requires
            self.wf(),
        ensures
            n == self@.len(),
    {
        proof {
            lemma_pairs_map_len(self.pairs@);
        }
        self.pairs.len()
    }
}

} // verus!
