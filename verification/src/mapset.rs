//! Small value-semantics collections used by the search state.
//!
//! Search snapshots are plain values: cloning one must provably preserve its
//! contents, and the proofs about a search need set and map views of what it
//! has recorded. Boards hold tens of vertices, so the collections are backed
//! by vectors with unique keys; their views are `Set` and `Map`.

use vstd::prelude::*;

use crate::point::Point;

verus! {

/// A set of points.
#[derive(Debug, PartialEq, Eq)]
pub struct PointSet {
    items: Vec<Point>,
}

impl View for PointSet {
    type V = Set<Point>;

    closed spec fn view(&self) -> Set<Point> {
        self.items@.to_set()
    }
}

impl PointSet {
    #[verifier::type_invariant]
    spec fn type_inv(self) -> bool {
        self.items@.no_duplicates()
    }

    /// Creates an empty set.
    pub fn new() -> (s: PointSet)
        ensures
            s@ == Set::<Point>::empty(),
            s@.finite(),
    {
        let s = PointSet { items: Vec::new() };
        proof {
            assert(s@ =~= Set::<Point>::empty());
        }
        s
    }

    /// Whether `p` is a member of the set.
    pub fn contains(&self, p: Point) -> (r: bool)
        ensures
            r == self@.contains(p),
    {
        let n = self.items.len();
        let mut i: usize = 0;
        while i < n
            invariant
                n == self.items.len(),
                i <= n,
                forall|j: int| 0 <= j < i ==> self.items@[j] != p,
            decreases n - i,
        {
            if self.items[i] == p {
                return true;
            }
            i = i + 1;
        }
        false
    }

    /// Adds `p` to the set; a member already present is left alone.
    pub fn insert(&mut self, p: Point)
        ensures
            final(self)@ == old(self)@.insert(p),
            final(self)@.finite(),
    {
        proof {
            use_type_invariant(&*self);
        }
        if !self.contains(p) {
            let mut items: Vec<Point> = Vec::new();
            core::mem::swap(&mut items, &mut self.items);
            items.push(p);
            *self = PointSet { items };
            proof {
                old(self).items@.lemma_push_to_set_commute(p);
                assert(self@ =~= old(self)@.insert(p));
            }
        } else {
            proof {
                assert(self@ =~= old(self)@.insert(p));
            }
        }
    }

    /// Removes `p` from the set; removing an absent point is a no-op.
    pub fn remove(&mut self, p: Point)
        ensures
            final(self)@ == old(self)@.remove(p),
            final(self)@.finite(),
    {
        proof {
            use_type_invariant(&*self);
        }
        let n = self.items.len();
        let mut i: usize = 0;
        while i < n
            invariant
                self == old(self),
                n == self.items.len(),
                i <= n,
                self.items@.no_duplicates(),
                forall|j: int| 0 <= j < i ==> self.items@[j] != p,
            decreases n - i,
        {
            if self.items[i] == p {
                let ghost pre = self.items@;
                let mut items: Vec<Point> = Vec::new();
                core::mem::swap(&mut items, &mut self.items);
                items.swap_remove(i);
                proof {
                    lemma_swap_remove_to_set(pre, i as int);
                }
                *self = PointSet { items };
                proof {
                    assert(self@ =~= old(self)@.remove(p));
                }
                return ;
            }
            i = i + 1;
        }
        proof {
            assert(self@ =~= old(self)@.remove(p));
        }
    }

    /// How many points the set holds.
    pub fn len(&self) -> (n: usize)
        ensures
            n == self@.len(),
    {
        proof {
            use_type_invariant(&*self);
            self.items@.unique_seq_to_set();
        }
        self.items.len()
    }

    /// Whether the set is empty.
    pub fn is_empty(&self) -> (r: bool)
        ensures
            r == self@.is_empty(),
    {
        proof {
            use_type_invariant(&*self);
            self.items@.unique_seq_to_set();
            if self.items@.len() == 0 {
                assert(self@ =~= Set::<Point>::empty());
            } else {
                assert(self@.contains(self.items@[0]));
            }
        }
        self.items.len() == 0
    }

    /// The members of the set, without duplicates, in unspecified order.
    pub fn as_vec(&self) -> (v: &Vec<Point>)
        ensures
            v@.to_set() == self@,
            v@.no_duplicates(),
    {
        proof {
            use_type_invariant(&*self);
        }
        &self.items
    }
}

impl Clone for PointSet {
    /// Cloning preserves the contents exactly.
    fn clone(&self) -> (res: Self)
        ensures
            res@ == self@,
    {
        proof {
            use_type_invariant(&*self);
        }
        let mut items: Vec<Point> = Vec::new();
        let n = self.items.len();
        let mut i: usize = 0;
        while i < n
            invariant
                n == self.items.len(),
                i <= n,
                items@ == self.items@.take(i as int),
            decreases n - i,
        {
            items.push(self.items[i]);
            proof {
                assert(items@ =~= self.items@.take(i as int + 1));
            }
            i = i + 1;
        }
        proof {
            assert(items@ =~= self.items@);
        }
        PointSet { items }
    }
}

/// Removing index `i` by a swap with the last element keeps every other
/// member: for a duplicate-free sequence the resulting set is the old set
/// without the removed element.
pub(crate) proof fn lemma_swap_remove_to_set<A>(s: Seq<A>, i: int)
    requires
        s.no_duplicates(),
        0 <= i < s.len(),
    ensures
        s.update(i, s.last()).drop_last().to_set() == s.to_set().remove(s[i]),
        s.update(i, s.last()).drop_last().no_duplicates(),
{
    let t = s.update(i, s.last()).drop_last();
    let p = s[i];
    assert forall|x: A| t.to_set().contains(x) implies s.to_set().remove(p).contains(x) by {
        let j = choose|j: int| 0 <= j < t.len() && t[j] == x;
        if j == i {
            assert(s[s.len() - 1] == x);
        } else {
            assert(s[j] == x);
        }
        assert(s.contains(x));
        if x == p {
            if j == i {
                assert(s[s.len() - 1] == s[i] && s.len() - 1 != i);
            } else {
                assert(s[j] == s[i] && j != i);
            }
        }
    }
    assert forall|x: A| s.to_set().remove(p).contains(x) implies t.to_set().contains(x) by {
        let j = choose|j: int| 0 <= j < s.len() && s[j] == x;
        if j == i {
        } else if j == s.len() - 1 {
            assert(t[i] == x);
        } else {
            assert(t[j] == x);
        }
    }
    assert(t.to_set() =~= s.to_set().remove(p));
    assert forall|a: int, b: int| 0 <= a < b < t.len() implies t[a] != t[b] by {
        if a == i {
            assert(t[a] == s[s.len() - 1] && t[b] == s[b]);
        } else if b == i {
            assert(t[b] == s[s.len() - 1] && t[a] == s[a]);
        } else {
            assert(t[a] == s[a] && t[b] == s[b]);
        }
    }
}

/// A set of directed point pairs (the edges a search has considered).
#[derive(Debug, PartialEq, Eq)]
pub struct EdgeSet {
    items: Vec<(Point, Point)>,
}

impl View for EdgeSet {
    type V = Set<(Point, Point)>;

    closed spec fn view(&self) -> Set<(Point, Point)> {
        self.items@.to_set()
    }
}

impl EdgeSet {
    #[verifier::type_invariant]
    spec fn type_inv(self) -> bool {
        self.items@.no_duplicates()
    }

    /// Creates an empty set.
    pub fn new() -> (s: EdgeSet)
        ensures
            s@ == Set::<(Point, Point)>::empty(),
    {
        let s = EdgeSet { items: Vec::new() };
        proof {
            assert(s@ =~= Set::<(Point, Point)>::empty());
        }
        s
    }

    /// Whether the pair `(from, to)` is a member of the set.
    pub fn contains(&self, from: Point, to: Point) -> (r: bool)
        ensures
            r == self@.contains((from, to)),
    {
        let n = self.items.len();
        let mut i: usize = 0;
        while i < n
            invariant
                n == self.items.len(),
                i <= n,
                forall|j: int| 0 <= j < i ==> self.items@[j] != (from, to),
            decreases n - i,
        {
            if self.items[i].0 == from && self.items[i].1 == to {
                return true;
            }
            i = i + 1;
        }
        false
    }

    /// Adds the pair `(from, to)`; a member already present is left alone.
    pub fn insert(&mut self, from: Point, to: Point)
        ensures
            final(self)@ == old(self)@.insert((from, to)),
    {
        proof {
            use_type_invariant(&*self);
        }
        if !self.contains(from, to) {
            let mut items: Vec<(Point, Point)> = Vec::new();
            core::mem::swap(&mut items, &mut self.items);
            items.push((from, to));
            *self = EdgeSet { items };
            proof {
                old(self).items@.lemma_push_to_set_commute((from, to));
                assert(self@ =~= old(self)@.insert((from, to)));
            }
        } else {
            proof {
                assert(self@ =~= old(self)@.insert((from, to)));
            }
        }
    }

    /// How many pairs the set holds.
    pub fn len(&self) -> (n: usize)
        ensures
            n == self@.len(),
    {
        proof {
            use_type_invariant(&*self);
            self.items@.unique_seq_to_set();
        }
        self.items.len()
    }

    /// The members of the set, without duplicates, in unspecified order.
    pub fn as_vec(&self) -> (v: &Vec<(Point, Point)>)
        ensures
            v@.to_set() == self@,
            v@.no_duplicates(),
    {
        proof {
            use_type_invariant(&*self);
        }
        &self.items
    }
}

impl Clone for EdgeSet {
    /// Cloning preserves the contents exactly.
    fn clone(&self) -> (res: Self)
        ensures
            res@ == self@,
    {
        proof {
            use_type_invariant(&*self);
        }
        let mut items: Vec<(Point, Point)> = Vec::new();
        let n = self.items.len();
        let mut i: usize = 0;
        while i < n
            invariant
                n == self.items.len(),
                i <= n,
                items@ == self.items@.take(i as int),
            decreases n - i,
        {
            items.push((self.items[i].0, self.items[i].1));
            proof {
                assert(self.items@.take(i as int + 1).drop_last() == self.items@.take(i as int));
                assert(items@ =~= self.items@.take(i as int + 1));
            }
            i = i + 1;
        }
        proof {
            assert(items@ =~= self.items@);
        }
        EdgeSet { items }
    }
}

} // verus!

use vstd::pervasive::VecAdditionalExecFns;

verus! {

/// An association from points to values, with map semantics.
#[derive(Debug, PartialEq, Eq)]
pub struct PointMap<V> {
    entries: Vec<(Point, V)>,
}

/// The map an entry list stands for; a later entry for a key wins.
spec fn assoc_view<V: View>(s: Seq<(Point, V)>) -> Map<Point, V::V>
    decreases s.len(),
{
    if s.len() == 0 {
        Map::empty()
    } else {
        assoc_view(s.drop_last()).insert(s.last().0, s.last().1@)
    }
}

/// Whether an entry list holds each key at most once.
spec fn unique_keys<V>(s: Seq<(Point, V)>) -> bool {
    forall|a: int, b: int| 0 <= a < b < s.len() ==> s[a].0 != s[b].0
}

/// An entry whose key has no later occurrence decides the map at that key.
proof fn lemma_assoc_index<V: View>(s: Seq<(Point, V)>, i: int)
    requires
        0 <= i < s.len(),
        forall|j: int| i < j < s.len() ==> s[j].0 != s[i].0,
    ensures
        assoc_view(s).dom().contains(s[i].0),
        assoc_view(s)[s[i].0] == s[i].1@,
    decreases s.len(),
{
    if i < s.len() - 1 {
        assert(s.drop_last()[i] == s[i]);
        assert(forall|j: int| i < j < s.drop_last().len() ==> s.drop_last()[j] == s[j]);
        lemma_assoc_index(s.drop_last(), i);
    }
}

/// A key no entry holds is not in the map.
proof fn lemma_assoc_absent<V: View>(s: Seq<(Point, V)>, k: Point)
    requires
        forall|i: int| 0 <= i < s.len() ==> s[i].0 != k,
    ensures
        !assoc_view(s).dom().contains(k),
    decreases s.len(),
{
    if s.len() > 0 {
        assert(forall|i: int| 0 <= i < s.drop_last().len() ==> s.drop_last()[i] == s[i]);
        lemma_assoc_absent(s.drop_last(), k);
    }
}

/// Replacing the value of an existing key is a map insert.
proof fn lemma_assoc_update<V: View>(s: Seq<(Point, V)>, i: int, v: V)
    requires
        unique_keys(s),
        0 <= i < s.len(),
    ensures
        assoc_view(s.update(i, (s[i].0, v))) == assoc_view(s).insert(s[i].0, v@),
        unique_keys(s.update(i, (s[i].0, v))),
{
    let k = s[i].0;
    let s2 = s.update(i, (k, v));
    assert(forall|j: int| 0 <= j < s.len() ==> #[trigger] s2[j].0 == s[j].0);
    assert(unique_keys(s2));
    let m2 = assoc_view(s2);
    let mi = assoc_view(s).insert(k, v@);
    assert forall|k2: Point| #[trigger] m2.dom().contains(k2) implies mi.dom().contains(k2) && m2[k2]
        == mi[k2] by {
        if k2 == k {
            lemma_assoc_index(s2, i);
        } else {
            if exists|j: int| 0 <= j < s.len() && s[j].0 == k2 {
                let j = choose|j: int| 0 <= j < s.len() && s[j].0 == k2;
                lemma_assoc_index(s, j);
                lemma_assoc_index(s2, j);
            } else {
                lemma_assoc_absent(s, k2);
                lemma_assoc_absent(s2, k2);
            }
        }
    }
    assert forall|k2: Point| #[trigger] mi.dom().contains(k2) implies m2.dom().contains(k2) by {
        if k2 == k {
            lemma_assoc_index(s2, i);
        } else {
            if exists|j: int| 0 <= j < s.len() && s[j].0 == k2 {
                let j = choose|j: int| 0 <= j < s.len() && s[j].0 == k2;
                lemma_assoc_index(s2, j);
            } else {
                lemma_assoc_absent(s, k2);
                lemma_assoc_absent(s2, k2);
            }
        }
    }
    assert(m2.dom() =~= mi.dom());
    assert forall|k2: Point| #[trigger] m2.dom().contains(k2) implies m2[k2] == mi[k2] by {
        assert(mi.dom().contains(k2) && m2[k2] == mi[k2]);
    }
    assert(m2 =~= mi);
}

/// Entry lists with equal keys and view-equal values stand for the same map.
proof fn lemma_assoc_congruent<V: View>(s1: Seq<(Point, V)>, s2: Seq<(Point, V)>)
    requires
        s1.len() == s2.len(),
        forall|i: int| 0 <= i < s1.len() ==> s1[i].0 == s2[i].0 && s1[i].1@ == s2[i].1@,
    ensures
        assoc_view(s1) == assoc_view(s2),
    decreases s1.len(),
{
    if s1.len() > 0 {
        assert(forall|i: int|
            0 <= i < s1.drop_last().len() ==> s1.drop_last()[i] == s1[i] && s2.drop_last()[i]
                == s2[i]);
        lemma_assoc_congruent(s1.drop_last(), s2.drop_last());
    }
}

impl<V: View> View for PointMap<V> {
    type V = Map<Point, V::V>;

    closed spec fn view(&self) -> Map<Point, V::V> {
        assoc_view(self.entries@)
    }
}

impl<V> PointMap<V> {
    #[verifier::type_invariant]
    spec fn type_inv(self) -> bool {
        unique_keys(self.entries@)
    }
}

impl<V: View> PointMap<V> {
    /// Creates an empty map.
    pub fn new() -> (m: PointMap<V>)
        ensures
            m@ == Map::<Point, V::V>::empty(),
    {
        PointMap { entries: Vec::new() }
    }

    /// Whether the map holds a binding for `k`.
    pub fn contains_key(&self, k: Point) -> (r: bool)
        ensures
            r == self@.dom().contains(k),
    {
        proof {
            use_type_invariant(&*self);
        }
        let n = self.entries.len();
        let mut i: usize = 0;
        while i < n
            invariant
                unique_keys(self.entries@),
                self@ == assoc_view(self.entries@),
                n == self.entries.len(),
                i <= n,
                forall|j: int| 0 <= j < i ==> self.entries@[j].0 != k,
            decreases n - i,
        {
            if self.entries[i].0 == k {
                proof {
                    lemma_assoc_index(self.entries@, i as int);
                }
                return true;
            }
            i = i + 1;
        }
        proof {
            lemma_assoc_absent(self.entries@, k);
        }
        false
    }

    /// The value bound to `k`, if the map holds one.
    pub fn get(&self, k: Point) -> (r: Option<&V>)
        ensures
            match r {
                Some(v) => self@.dom().contains(k) && v@ == self@[k],
                None => !self@.dom().contains(k),
            },
    {
        proof {
            use_type_invariant(&*self);
        }
        let n = self.entries.len();
        let mut i: usize = 0;
        while i < n
            invariant
                unique_keys(self.entries@),
                self@ == assoc_view(self.entries@),
                n == self.entries.len(),
                i <= n,
                forall|j: int| 0 <= j < i ==> self.entries@[j].0 != k,
            decreases n - i,
        {
            if self.entries[i].0 == k {
                proof {
                    lemma_assoc_index(self.entries@, i as int);
                }
                return Some(&self.entries[i].1);
            }
            i = i + 1;
        }
        proof {
            lemma_assoc_absent(self.entries@, k);
        }
        None
    }

    /// Binds `k` to `v`, replacing any earlier binding.
    pub fn insert(&mut self, k: Point, v: V)
        ensures
            final(self)@ == old(self)@.insert(k, v@),
    {
        proof {
            use_type_invariant(&*self);
        }
        let n = self.entries.len();
        let mut i: usize = 0;
        while i < n
            invariant
                self == old(self),
                unique_keys(self.entries@),
                n == self.entries.len(),
                i <= n,
                forall|j: int| 0 <= j < i ==> self.entries@[j].0 != k,
            decreases n - i,
        {
            if self.entries[i].0 == k {
                let ghost pre = self.entries@;
                let mut entries: Vec<(Point, V)> = Vec::new();
                core::mem::swap(&mut entries, &mut self.entries);
                entries.set(i, (k, v));
                proof {
                    lemma_assoc_update(pre, i as int, v);
                }
                *self = PointMap { entries };
                return ;
            }
            i = i + 1;
        }
        let mut entries: Vec<(Point, V)> = Vec::new();
        core::mem::swap(&mut entries, &mut self.entries);
        entries.push((k, v));
        proof {
            assert(entries@.drop_last() == old(self).entries@);
        }
        *self = PointMap { entries };
    }

    /// The keys the map holds bindings for, without duplicates, in
    /// unspecified order.
    pub fn keys(&self) -> (ks: Vec<Point>)
        ensures
            ks@.no_duplicates(),
            ks@.to_set() == self@.dom(),
    {
        proof {
            use_type_invariant(&*self);
        }
        let n = self.entries.len();
        let mut ks: Vec<Point> = Vec::new();
        let mut i: usize = 0;
        while i < n
            invariant
                unique_keys(self.entries@),
                self@ == assoc_view(self.entries@),
                n == self.entries.len(),
                i <= n,
                ks@.len() == i,
                forall|j: int| 0 <= j < i ==> ks@[j] == self.entries@[j].0,
            decreases n - i,
        {
            ks.push(self.entries[i].0);
            i = i + 1;
        }
        proof {
            assert forall|k: Point| ks@.to_set().contains(k) implies self@.dom().contains(k) by {
                let j = choose|j: int| 0 <= j < ks@.len() && ks@[j] == k;
                lemma_assoc_index(self.entries@, j);
            }
            assert forall|k: Point| self@.dom().contains(k) implies ks@.to_set().contains(k) by {
                if forall|j: int| 0 <= j < self.entries@.len() ==> self.entries@[j].0 != k {
                    lemma_assoc_absent(self.entries@, k);
                }
                let j = choose|j: int|
                    0 <= j < self.entries@.len() && self.entries@[j].0 == k;
                assert(ks@[j] == k);
            }
            assert(ks@.to_set() =~= self@.dom());
            assert forall|a: int, b: int| 0 <= a < b < ks@.len() implies ks@[a] != ks@[b] by {
                assert(self.entries@[a].0 != self.entries@[b].0);
            }
        }
        ks
    }
}

/// Copies a vector of points element by element.
pub fn copy_points(v: &Vec<Point>) -> (r: Vec<Point>)
    ensures
        r@ == v@,
{
    let mut r: Vec<Point> = Vec::new();
    let n = v.len();
    let mut i: usize = 0;
    while i < n
        invariant
            n == v.len(),
            i <= n,
            r@ == v@.take(i as int),
        decreases n - i,
    {
        r.push(v[i]);
        proof {
            assert(r@ =~= v@.take(i as int + 1));
        }
        i = i + 1;
    }
    proof {
        assert(r@ =~= v@);
    }
    r
}

impl Clone for PointMap<i32> {
    /// Cloning preserves the contents exactly.
    fn clone(&self) -> (res: Self)
        ensures
            res@ == self@,
    {
        proof {
            use_type_invariant(&*self);
        }
        let mut entries: Vec<(Point, i32)> = Vec::new();
        let n = self.entries.len();
        let mut i: usize = 0;
        while i < n
            invariant
                n == self.entries.len(),
                i <= n,
                entries@.len() == i,
                forall|j: int|
                    0 <= j < i ==> entries@[j].0 == self.entries@[j].0 && entries@[j].1
                        == self.entries@[j].1,
            decreases n - i,
        {
            entries.push((self.entries[i].0, self.entries[i].1));
            i = i + 1;
        }
        proof {
            lemma_assoc_congruent(entries@, self.entries@);
        }
        PointMap { entries }
    }
}

impl Clone for PointMap<Point> {
    /// Cloning preserves the contents exactly.
    fn clone(&self) -> (res: Self)
        ensures
            res@ == self@,
    {
        proof {
            use_type_invariant(&*self);
        }
        let mut entries: Vec<(Point, Point)> = Vec::new();
        let n = self.entries.len();
        let mut i: usize = 0;
        while i < n
            invariant
                n == self.entries.len(),
                i <= n,
                entries@.len() == i,
                forall|j: int|
                    0 <= j < i ==> entries@[j].0 == self.entries@[j].0 && entries@[j].1
                        == self.entries@[j].1,
            decreases n - i,
        {
            entries.push((self.entries[i].0, self.entries[i].1));
            i = i + 1;
        }
        proof {
            lemma_assoc_congruent(entries@, self.entries@);
        }
        PointMap { entries }
    }
}

impl Clone for PointMap<Vec<Point>> {
    /// Cloning preserves the contents exactly.
    fn clone(&self) -> (res: Self)
        ensures
            res@ == self@,
    {
        proof {
            use_type_invariant(&*self);
        }
        let mut entries: Vec<(Point, Vec<Point>)> = Vec::new();
        let n = self.entries.len();
        let mut i: usize = 0;
        while i < n
            invariant
                n == self.entries.len(),
                i <= n,
                entries@.len() == i,
                forall|j: int|
                    0 <= j < i ==> entries@[j].0 == self.entries@[j].0 && entries@[j].1@
                        == self.entries@[j].1@,
            decreases n - i,
        {
            let path = copy_points(&self.entries[i].1);
            entries.push((self.entries[i].0, path));
            i = i + 1;
        }
        proof {
            lemma_assoc_congruent(entries@, self.entries@);
        }
        PointMap { entries }
    }
}

} // verus!
