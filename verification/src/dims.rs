//! Dynamic dimensions: sets of their letters, and their values.

use vstd::prelude::*;

verus! {

/// Letters in strictly ascending order.
pub open spec fn ascending(s: Seq<char>) -> bool {
    forall|i: int, j: int| 0 <= i < j < s.len() ==> (#[trigger] s[i]) < (#[trigger] s[j])
}

/// A set of dynamic dimensions, kept in alphabetical order.
#[derive(Debug)]
pub struct DimSet {
    dims: Vec<char>,
}

impl View for DimSet {
    type V = Set<char>;

    closed spec fn view(&self) -> Set<char> {
        self.dims@.to_set()
    }
}

impl DimSet {
    /// The letters are in order.
    pub closed spec fn wf(&self) -> bool {
        ascending(self.dims@)
    }

    /// No dimensions.
    pub fn new() -> (r: DimSet)
        ensures
            r.wf(),
            r@ == Set::<char>::empty(),
    {
        let r = DimSet { dims: Vec::new() };
        assert(r@ =~= Set::<char>::empty());
        r
    }

    /// Whether there are none.
    pub fn is_empty(&self) -> (r: bool)
        ensures
            r == (self@ == Set::<char>::empty()),
    {
        let r = self.dims.len() == 0;
        proof {
            if r {
                assert(self@ =~= Set::<char>::empty());
            } else {
                assert(self@.contains(self.dims@[0]));
            }
        }
        r
    }

    /// Where `d` stands or would stand: all before it are less, all from it on are
    /// not.
    fn place(&self, d: char) -> (i: usize)
        requires
            self.wf(),
        ensures
            i <= self.dims@.len(),
            forall|k: int| 0 <= k < i ==> (#[trigger] self.dims@[k]) < d,
            forall|k: int| i <= k < self.dims@.len() ==> (#[trigger] self.dims@[k]) >= d,
    {
        let mut i: usize = 0;
        while i < self.dims.len() && self.dims[i] < d
            invariant
                self.wf(),
                i <= self.dims@.len(),
                forall|k: int| 0 <= k < i ==> (#[trigger] self.dims@[k]) < d,
            decreases self.dims@.len() - i,
        {
            i = i + 1;
        }
        i
    }

    /// Whether `d` is among them.
    pub fn contains(&self, d: char) -> (r: bool)
        requires
            self.wf(),
        ensures
            r == self@.contains(d),
    {
        let i = self.place(d);
        let r = i < self.dims.len() && self.dims[i] == d;
        proof {
            if self@.contains(d) {
                let k = choose|k: int| 0 <= k < self.dims@.len() && self.dims@[k] == d;
                assert(k >= i);
                if k > i {
                    assert(self.dims@[i as int] < self.dims@[k]);
                }
            }
            if r {
                assert(self.dims@[i as int] == d);
            }
        }
        r
    }

    /// Add `d`.
    pub fn insert(&mut self, d: char)
        requires
            old(self).wf(),
        ensures
            final(self).wf(),
            final(self)@ == old(self)@.insert(d),
    {
        let i = self.place(d);
        let ghost old_dims = self.dims@;
        if i < self.dims.len() && self.dims[i] == d {
            proof {
                assert(old_dims[i as int] == d);
                assert(self@ =~= self@.insert(d));
            }
            return;
        }
        self.dims.insert(i, d);
        proof {
            let new_dims = self.dims@;
            assert(new_dims =~= old_dims.insert(i as int, d));
            assert forall|a: int, b: int| 0 <= a < b < new_dims.len() implies (#[trigger] new_dims[a])
                < (#[trigger] new_dims[b]) by {
                if a < i && b > i {
                    assert(old_dims[a] < d);
                } else if a == i {
                    assert(old_dims[b - 1] >= d);
                    if b - 1 > i {
                        assert(old_dims[i as int] < old_dims[b - 1]);
                    }
                } else if a > i {
                    assert(old_dims[a - 1] < old_dims[b - 1]);
                }
            }
            assert forall|c: char| #[trigger] self@.contains(c) <==> old_dims.to_set().insert(
                d,
            ).contains(c) by {
                if new_dims.contains(c) {
                    let k = choose|k: int| 0 <= k < new_dims.len() && new_dims[k] == c;
                    if k < i {
                        assert(old_dims[k] == c);
                    } else if k > i {
                        assert(old_dims[k - 1] == c);
                    }
                }
                if old_dims.contains(c) {
                    let k = choose|k: int| 0 <= k < old_dims.len() && old_dims[k] == c;
                    if k < i {
                        assert(new_dims[k] == c);
                    } else {
                        assert(new_dims[k + 1] == c);
                    }
                }
                assert(new_dims[i as int] == d);
            }
            assert(self@ =~= old_dims.to_set().insert(d));
        }
    }

    /// Add all of `ds`.
    pub fn extend(&mut self, ds: &Vec<char>)
        requires
            old(self).wf(),
        ensures
            final(self).wf(),
            final(self)@ == old(self)@.union(ds@.to_set()),
    {
        let ghost start = self@;
        let mut i: usize = 0;
        assert(self@ =~= start.union(ds@.take(0).to_set()));
        while i < ds.len()
            invariant
                i <= ds@.len(),
                self.wf(),
                self@ == start.union(ds@.take(i as int).to_set()),
            decreases ds@.len() - i,
        {
            self.insert(ds[i]);
            proof {
                assert(ds@.take(i + 1) =~= ds@.take(i as int).push(ds@[i as int]));
                ds@.take(i as int).lemma_push_to_set_commute(ds@[i as int]);
                assert(self@ =~= start.union(ds@.take(i + 1).to_set()));
            }
            i = i + 1;
        }
        assert(ds@.take(ds@.len() as int) =~= ds@);
    }

    /// The letters in alphabetical order, each once.
    pub fn into_sorted(self) -> (r: Vec<char>)
        requires
            self.wf(),
        ensures
            ascending(r@),
            r@.to_set() == self@,
    {
        self.dims
    }
}

/// The values of dynamic dimensions, kept in alphabetical order.
#[derive(Debug)]
pub struct DynMap {
    entries: Vec<(char, usize)>,
}

/// Entries in strictly ascending order of their letters.
pub open spec fn ascending_entries(s: Seq<(char, usize)>) -> bool {
    forall|i: int, j: int| 0 <= i < j < s.len() ==> (#[trigger] s[i]).0 < (#[trigger] s[j]).0
}

/// What a list of entries maps a letter to.
pub open spec fn entry_map(s: Seq<(char, usize)>) -> Map<char, usize> {
    Map::new(
        |d: char| exists|i: int| 0 <= i < s.len() && (#[trigger] s[i]).0 == d,
        |d: char| s[choose|i: int| 0 <= i < s.len() && (#[trigger] s[i]).0 == d].1,
    )
}

/// An entry of an ascending list is what its letter maps to.
pub proof fn lemma_entry_map(s: Seq<(char, usize)>, i: int)
    requires
        ascending_entries(s),
        0 <= i < s.len(),
    ensures
        entry_map(s).contains_key(s[i].0),
        entry_map(s)[s[i].0] == s[i].1,
{
    let d = s[i].0;
    let k = choose|k: int| 0 <= k < s.len() && (#[trigger] s[k]).0 == d;
    if k < i {
        assert(s[k].0 < s[i].0);
    } else if k > i {
        assert(s[i].0 < s[k].0);
    }
}

/// Two ascending lists that map alike are the same.
pub proof fn lemma_entry_map_injective(s: Seq<(char, usize)>, t: Seq<(char, usize)>)
    requires
        ascending_entries(s),
        ascending_entries(t),
        entry_map(s) == entry_map(t),
    ensures
        s == t,
    decreases s.len(),
{
    if s.len() == 0 {
        if t.len() > 0 {
            lemma_entry_map(t, 0);
            assert(false);
        }
        assert(s =~= t);
    } else if t.len() == 0 {
        lemma_entry_map(s, 0);
        assert(false);
    } else {
        let (ls, lt) = (s.len() - 1, t.len() - 1);
        lemma_entry_map(s, ls);
        lemma_entry_map(t, lt);
        let k = choose|k: int| 0 <= k < t.len() && (#[trigger] t[k]).0 == s[ls].0;
        let l = choose|l: int| 0 <= l < s.len() && (#[trigger] s[l]).0 == t[lt].0;
        if k < lt {
            assert(t[k].0 < t[lt].0);
            if l < ls {
                assert(s[l].0 < s[ls].0);
            }
            assert(false);
        }
        assert(s[ls] == t[lt]);
        let (a, b) = (s.drop_last(), t.drop_last());
        assert forall|d: char| #[trigger] entry_map(a).contains_key(d) <==> entry_map(
            b,
        ).contains_key(d) by {
            lemma_entry_map_front(s, d);
            lemma_entry_map_front(t, d);
        }
        assert forall|d: char| entry_map(a).contains_key(d) implies entry_map(a)[d] == entry_map(
            b,
        )[d] by {
            assert(entry_map(b).contains_key(d));
            lemma_entry_map_front(s, d);
            lemma_entry_map_front(t, d);
        }
        assert(entry_map(a) =~= entry_map(b));
        lemma_entry_map_injective(a, b);
        assert(s =~= a.push(s[ls]));
        assert(t =~= b.push(t[lt]));
    }
}

proof fn lemma_entry_map_front(s: Seq<(char, usize)>, d: char)
    requires
        ascending_entries(s),
        s.len() > 0,
    ensures
        entry_map(s.drop_last()).contains_key(d) <==> entry_map(s).contains_key(d) && d
            != s.last().0,
        entry_map(s.drop_last()).contains_key(d) ==> entry_map(s.drop_last())[d] == entry_map(s)[d],
{
    let f = s.drop_last();
    if entry_map(f).contains_key(d) {
        let i = choose|i: int| 0 <= i < f.len() && (#[trigger] f[i]).0 == d;
        assert(s[i].0 < s[s.len() - 1].0);
        lemma_entry_map(s, i);
        lemma_entry_map(f, i);
    }
    if entry_map(s).contains_key(d) && d != s.last().0 {
        let i = choose|i: int| 0 <= i < s.len() && (#[trigger] s[i]).0 == d;
        assert(f[i].0 == d);
    }
}

/// A new value for a letter that has one.
proof fn lemma_entry_map_update(s: Seq<(char, usize)>, i: int, d: char, v: usize)
    requires
        ascending_entries(s),
        0 <= i < s.len(),
        s[i].0 == d,
    ensures
        ascending_entries(s.update(i, (d, v))),
        entry_map(s).contains_key(d),
        entry_map(s.update(i, (d, v))) == entry_map(s).insert(d, v),
{
    let t = s.update(i, (d, v));
    assert(ascending_entries(t));
    lemma_entry_map(s, i);
    assert forall|c: char| #[trigger] entry_map(t).contains_key(c) <==> entry_map(
        s,
    ).insert(d, v).contains_key(c) by {
        if entry_map(t).contains_key(c) {
            let k = choose|k: int| 0 <= k < t.len() && (#[trigger] t[k]).0 == c;
            assert(s[k].0 == c);
        }
        if entry_map(s).contains_key(c) {
            let k = choose|k: int| 0 <= k < s.len() && (#[trigger] s[k]).0 == c;
            assert(t[k].0 == c);
        }
    }
    assert forall|c: char| entry_map(t).contains_key(c) implies entry_map(t)[c]
        == entry_map(s).insert(d, v)[c] by {
        let k = choose|k: int| 0 <= k < t.len() && (#[trigger] t[k]).0 == c;
        lemma_entry_map(t, k);
        lemma_entry_map(s, k);
        if k != i {
            if k < i {
                assert(t[k].0 < t[i].0);
            } else {
                assert(t[i].0 < t[k].0);
            }
        }
    }
    assert(entry_map(t) =~= entry_map(s).insert(d, v));
}

/// A value for a letter that has none, at its place.
proof fn lemma_entry_map_insert(s: Seq<(char, usize)>, i: int, d: char, v: usize)
    requires
        ascending_entries(s),
        0 <= i <= s.len(),
        forall|k: int| 0 <= k < i ==> (#[trigger] s[k]).0 < d,
        forall|k: int| i <= k < s.len() ==> (#[trigger] s[k]).0 > d,
    ensures
        ascending_entries(s.insert(i, (d, v))),
        !entry_map(s).contains_key(d),
        entry_map(s.insert(i, (d, v))) == entry_map(s).insert(d, v),
{
    let t = s.insert(i, (d, v));

    if entry_map(s).contains_key(d) {
        let k = choose|k: int| 0 <= k < s.len() && (#[trigger] s[k]).0 == d;
        assert(k >= i);
        if k > i {
            assert(s[i].0 < s[k].0);
        }
        assert(false);
    }
    assert forall|a: int, b: int| 0 <= a < b < t.len() implies (#[trigger] t[a]).0 < (
    #[trigger] t[b]).0 by {
        if a < i && b > i {
            assert(s[a].0 < s[b - 1].0);
        } else if a == i {
            assert(s[b - 1].0 >= d);
            if b - 1 > i {
                assert(s[i].0 < s[b - 1].0);
            }
        } else if a > i {
            assert(s[a - 1].0 < s[b - 1].0);
        } else if b == i {
            assert(s[a].0 < d);
        } else {
            assert(s[a].0 < s[b].0);
        }
    }
    assert(t[i] == (d, v));
    lemma_entry_map(t, i);
    assert forall|c: char| #[trigger] entry_map(t).contains_key(c) <==> entry_map(s).insert(
        d,
        v,
    ).contains_key(c) by {
        if entry_map(t).contains_key(c) && c != d {
            let k = choose|k: int| 0 <= k < t.len() && (#[trigger] t[k]).0 == c;
            if k < i {
                assert(s[k].0 == c);
            } else {
                assert(s[k - 1].0 == c);
            }
        }
        if entry_map(s).contains_key(c) {
            let k = choose|k: int| 0 <= k < s.len() && (#[trigger] s[k]).0 == c;
            if k < i {
                assert(t[k].0 == c);
            } else {
                assert(t[k + 1].0 == c);
            }
        }
    }
    assert forall|c: char| entry_map(t).contains_key(c) implies entry_map(t)[c]
        == entry_map(s).insert(d, v)[c] by {
        if c != d {
            let k = choose|k: int| 0 <= k < t.len() && (#[trigger] t[k]).0 == c;
            lemma_entry_map(t, k);
            if k < i {
                lemma_entry_map(s, k);
            } else {
                assert(k != i);
                lemma_entry_map(s, k - 1);
            }
        }
    }
    assert(entry_map(t) =~= entry_map(s).insert(d, v));
}

impl View for DynMap {
    type V = Map<char, usize>;

    closed spec fn view(&self) -> Map<char, usize> {
        entry_map(self.entries@)
    }
}

impl DynMap {
    /// The entries are in order.
    pub closed spec fn wf(&self) -> bool {
        ascending_entries(self.entries@)
    }

    /// The number of entries.
    pub closed spec fn count(&self) -> nat {
        self.entries@.len()
    }

    /// No values.
    pub fn new() -> (r: DynMap)
        ensures
            r.wf(),
            r@ == Map::<char, usize>::empty(),
            r.count() == 0,
    {
        let r = DynMap { entries: Vec::new() };
        assert(r@ =~= Map::<char, usize>::empty());
        r
    }

    fn place(&self, d: char) -> (i: usize)
        requires
            self.wf(),
        ensures
            i <= self.entries@.len(),
            forall|k: int| 0 <= k < i ==> (#[trigger] self.entries@[k]).0 < d,
            forall|k: int| i <= k < self.entries@.len() ==> (#[trigger] self.entries@[k]).0 >= d,
    {
        let mut i: usize = 0;
        while i < self.entries.len() && self.entries[i].0 < d
            invariant
                self.wf(),
                i <= self.entries@.len(),
                forall|k: int| 0 <= k < i ==> (#[trigger] self.entries@[k]).0 < d,
            decreases self.entries@.len() - i,
        {
            i = i + 1;
        }
        i
    }

    /// The value of `d`, if it has one.
    pub fn get(&self, d: char) -> (r: Option<usize>)
        requires
            self.wf(),
        ensures
            r == (if self@.contains_key(d) {
                Some(self@[d])
            } else {
                None
            }),
    {
        let i = self.place(d);
        if i < self.entries.len() && self.entries[i].0 == d {
            proof {
                lemma_entry_map(self.entries@, i as int);
            }
            Some(self.entries[i].1)
        } else {
            proof {
                if self@.contains_key(d) {
                    let k = choose|k: int|
                        0 <= k < self.entries@.len() && (#[trigger] self.entries@[k]).0 == d;
                    assert(k >= i);
                    if k > i {
                        assert(self.entries@[i as int].0 < self.entries@[k].0);
                    }
                    assert(false);
                }
            }
            None
        }
    }

    /// Give `d` the value `v`.
    pub fn insert(&mut self, d: char, v: usize)
        requires
            old(self).wf(),
        ensures
            final(self).wf(),
            final(self)@ == old(self)@.insert(d, v),
            final(self).count() == if old(self)@.contains_key(d) {
                old(self).count()
            } else {
                old(self).count() + 1
            },
    {
        let i = self.place(d);
        let ghost s = self.entries@;
        if i < self.entries.len() && self.entries[i].0 == d {
            self.entries.set(i, (d, v));
            proof {
                lemma_entry_map_update(s, i as int, d, v);
            }
            return;
        }
        self.entries.insert(i, (d, v));
        proof {
            assert forall|k: int| i <= k < s.len() implies (#[trigger] s[k]).0 > d by {
                if k > i {
                    assert(s[i as int].0 < s[k].0);
                }
            }
            lemma_entry_map_insert(s, i as int, d, v);
            assert(self.entries@ =~= s.insert(i as int, (d, v)));
        }
    }

    /// The number of entries.
    pub fn len(&self) -> (r: usize)
        ensures
            r == self.count(),
    {
        self.entries.len()
    }

    /// The entries in alphabetical order.
    pub fn entries(&self) -> (r: &Vec<(char, usize)>)
        requires
            self.wf(),
        ensures
            ascending_entries(r@),
            entry_map(r@) == self@,
            r@.len() == self.count(),
    {
        &self.entries
    }

    /// Another map with the same values.
    pub fn duplicate(&self) -> (r: DynMap)
        requires
            self.wf(),
        ensures
            r.wf(),
            r@ == self@,
            r.count() == self.count(),
    {
        let mut entries: Vec<(char, usize)> = Vec::new();
        let mut i: usize = 0;
        while i < self.entries.len()
            invariant
                i <= self.entries@.len(),
                entries@ == self.entries@.take(i as int),
            decreases self.entries@.len() - i,
        {
            entries.push(self.entries[i]);
            assert(self.entries@.take(i + 1) =~= self.entries@.take(i as int).push(
                self.entries@[i as int],
            ));
            i = i + 1;
        }
        assert(entries@ =~= self.entries@);
        DynMap { entries }
    }
}

} // verus!
