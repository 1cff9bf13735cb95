//! Z-index bookkeeping for the component tree and the render order it yields.
use vstd::prelude::*;
use crate::entity::EntityId;
use crate::entity_map::EntityMap;

verus! {

/// Position of the last occurrence of `x` in `ids`, or -1.
pub open spec fn pos_in(ids: Seq<EntityId>, x: EntityId) -> int
    decreases ids.len(),
{
    if ids.len() == 0 {
        -1
    } else if ids.last() == x {
        ids.len() - 1
    } else {
        pos_in(ids.drop_last(), x)
    }
}

pub proof fn lemma_pos_in(ids: Seq<EntityId>, x: EntityId)
    ensures
        -1 <= pos_in(ids, x) < ids.len(),
        pos_in(ids, x) >= 0 ==> ids[pos_in(ids, x)] == x,
        pos_in(ids, x) == -1 <==> !ids.contains(x),
        ids.no_duplicates() ==> forall|i: int| 0 <= i < ids.len() && #[trigger] ids[i] == x ==> pos_in(ids, x) == i,
    decreases ids.len(),
{
    if ids.len() > 0 {
        let init = ids.drop_last();
        lemma_pos_in(init, x);
        if ids.last() != x {
            if ids.contains(x) {
                let i = choose|i: int| 0 <= i < ids.len() && ids[i] == x;
                assert(init[i] == x);
            }
            if init.contains(x) {
                let i = choose|i: int| 0 <= i < init.len() && init[i] == x;
                assert(ids[i] == x);
            }
        }
        if ids.no_duplicates() {
            assert(init.no_duplicates()) by {
                assert forall|i: int, j: int| 0 <= i < init.len() && 0 <= j < init.len() && i != j implies init[i] != init[j] by {
                    assert(init[i] == ids[i] && init[j] == ids[j]);
                }
            }
            assert forall|i: int| 0 <= i < ids.len() && #[trigger] ids[i] == x implies pos_in(ids, x) == i by {
                if i < ids.len() - 1 {
                    assert(init[i] == x);
                    if ids.last() == x {
                        assert(ids[ids.len() - 1] == ids[i]);
                    }
                }
            }
        }
    }
}

/// The abstract state of a [`ZIndexManager`].
pub struct ZModel {
    /// Registered components, in registration order.
    pub ids: Seq<EntityId>,
    /// Parent of each registered component, aligned with `ids`.
    pub parents: Seq<Option<EntityId>>,
    /// Manual adjustments, relative to siblings.
    pub adjustments: Map<EntityId, i32>,
    /// Absolute z-indices from the last computation.
    pub computed: Map<EntityId, i32>,
    pub level_increment: i32,
    pub dirty: bool,
    pub root: Option<EntityId>,
}

/// The registration tree and adjustments: everything a z-index computation reads.
pub struct ZTree {
    pub ids: Seq<EntityId>,
    pub parents: Seq<Option<EntityId>>,
    pub adjustments: Map<EntityId, i32>,
    pub level_increment: i32,
}

impl ZModel {
    pub open spec fn tree(self) -> ZTree {
        ZTree {
            ids: self.ids,
            parents: self.parents,
            adjustments: self.adjustments,
            level_increment: self.level_increment,
        }
    }
}

impl ZTree {
    pub open spec fn pos(self, x: EntityId) -> int {
        pos_in(self.ids, x)
    }

    pub open spec fn registered(self, x: EntityId) -> bool {
        self.pos(x) >= 0
    }

    /// The parent a component was registered with (none for unregistered ids).
    pub open spec fn parent(self, x: EntityId) -> Option<EntityId> {
        if self.registered(x) {
            self.parents[self.pos(x)]
        } else {
            None
        }
    }

    pub open spec fn adj(self, x: EntityId) -> int {
        if self.adjustments.contains_key(x) {
            self.adjustments[x] as int
        } else {
            0
        }
    }

    /// Adjustment inherited from the parent.
    pub open spec fn parent_adj(self, x: EntityId) -> int {
        match self.parent(x) {
            Some(p) => self.adj(p),
            None => 0,
        }
    }

    /// Absolute z-index of `x` at tree depth `d`.
    pub open spec fn z(self, x: EntityId, d: int) -> int {
        d * self.level_increment + self.adj(x) + self.parent_adj(x)
    }

    /// Whether computing the z-index of `x` at depth `d` stays within `i32`
    /// at every step of the sum.
    pub open spec fn z_in_range(self, x: EntityId, d: int) -> bool {
        &&& i32::MIN <= d * self.level_increment <= i32::MAX
        &&& i32::MIN <= d * self.level_increment + self.adj(x) <= i32::MAX
        &&& i32::MIN <= self.z(x, d) <= i32::MAX
    }

    /// The `k`-th ancestor of `x` (`x` itself for 0), following registered parents.
    pub open spec fn ancestor(self, x: EntityId, k: nat) -> Option<EntityId>
        decreases k,
    {
        if k == 0 {
            Some(x)
        } else {
            match self.ancestor(x, (k - 1) as nat) {
                Some(y) => self.parent(y),
                None => None,
            }
        }
    }

    /// Whether walking up the parents from `x` (inclusive) meets `target`.
    pub open spec fn chain_hits(self, x: EntityId, target: EntityId) -> bool {
        exists|k: nat| #[trigger] self.ancestor(x, k) == Some(target)
    }

    /// Registered children of `x` among the first `n` registrations, in registration order.
    pub open spec fn children_upto(self, x: EntityId, n: nat) -> Seq<EntityId>
        decreases n,
    {
        if n == 0 {
            Seq::empty()
        } else {
            let prev = self.children_upto(x, (n - 1) as nat);
            if self.parents[n - 1] == Some(x) {
                prev.push(self.ids[n - 1])
            } else {
                prev
            }
        }
    }

    /// Registered children of `x`, in registration order.
    pub open spec fn children(self, x: EntityId) -> Seq<EntityId> {
        self.children_upto(x, self.ids.len())
    }

    pub open spec fn shape_wf(self) -> bool {
        &&& self.ids.len() == self.parents.len()
        &&& self.ids.no_duplicates()
        &&& self.ids.len() < usize::MAX
    }
}

/// Heights that strictly grow from child to registered parent and stay below `bound`.
pub open spec fn valid_heights(m: ZTree, h: Map<EntityId, nat>, bound: nat) -> bool {
    &&& forall|i: int| 0 <= i < m.ids.len() ==> #[trigger] h.contains_key(m.ids[i]) && h[m.ids[i]] < bound
    &&& forall|i: int|
        0 <= i < m.ids.len() && (#[trigger] m.parents[i]) is Some && m.registered(m.parents[i].unwrap())
            ==> h[m.parents[i].unwrap()] > h[m.ids[i]]
}

/// Height of `x`; anything unregistered sits at `bound`, above every component.
pub open spec fn level(m: ZTree, h: Map<EntityId, nat>, bound: nat, x: EntityId) -> nat {
    if m.registered(x) {
        h[x]
    } else {
        bound
    }
}

/// Registered children of `x` are registered and sit strictly lower than `x`.
pub proof fn lemma_children_lower(m: ZTree, h: Map<EntityId, nat>, b: nat, x: EntityId, n: nat)
    requires
        m.shape_wf(),
        valid_heights(m, h, b),
        n <= m.ids.len(),
    ensures
        forall|i: int|
            0 <= i < m.children_upto(x, n).len() ==> m.registered(#[trigger] m.children_upto(x, n)[i])
                && level(m, h, b, m.children_upto(x, n)[i]) < level(m, h, b, x)
                && m.parent(m.children_upto(x, n)[i]) == Some(x),
    decreases n,
{
    if n > 0 {
        lemma_children_lower(m, h, b, x, (n - 1) as nat);
        let c = m.ids[n - 1];
        if m.parents[n - 1] == Some(x) {
            lemma_pos_in(m.ids, c);
            assert(m.pos(c) == n - 1);
            assert(m.parent(c) == Some(x));
            lemma_parent_higher(m, h, b, c);
            let prev = m.children_upto(x, (n - 1) as nat);
            assert forall|i: int| 0 <= i < m.children_upto(x, n).len() implies m.registered(#[trigger] m.children_upto(x, n)[i])
                && level(m, h, b, m.children_upto(x, n)[i]) < level(m, h, b, x)
                && m.parent(m.children_upto(x, n)[i]) == Some(x) by {
                if i < prev.len() {
                    assert(m.children_upto(x, n)[i] == prev[i]);
                }
            }
        }
    }
}

/// Sort key of a child: its computed z-index (0 when none was computed)
/// and its registration position.
pub open spec fn key_lt(a: (EntityId, i32, usize), b: (EntityId, i32, usize)) -> bool {
    a.1 < b.1 || (a.1 == b.1 && a.2 < b.2)
}

/// Index of the first element that `x` sorts strictly before.
pub open spec fn first_after(s: Seq<(EntityId, i32, usize)>, x: (EntityId, i32, usize)) -> nat
    decreases s.len(),
{
    if s.len() == 0 {
        0
    } else if key_lt(x, s[0]) {
        0
    } else {
        1 + first_after(s.drop_first(), x)
    }
}

pub open spec fn insert_sorted(s: Seq<(EntityId, i32, usize)>, x: (EntityId, i32, usize)) -> Seq<
    (EntityId, i32, usize),
> {
    s.insert(first_after(s, x) as int, x)
}

/// Insertion sort by `key_lt`.
pub open spec fn isort(s: Seq<(EntityId, i32, usize)>) -> Seq<(EntityId, i32, usize)>
    decreases s.len(),
{
    if s.len() == 0 {
        s
    } else {
        insert_sorted(isort(s.drop_last()), s.last())
    }
}

impl ZModel {
    pub open spec fn zkey(self, x: EntityId) -> i32 {
        if self.computed.contains_key(x) {
            self.computed[x]
        } else {
            0
        }
    }

    /// Children of `x` among the first `n` registrations, each with its sort key.
    pub open spec fn keyed_upto(self, x: EntityId, n: nat) -> Seq<(EntityId, i32, usize)>
        decreases n,
    {
        if n == 0 {
            Seq::empty()
        } else {
            let prev = self.keyed_upto(x, (n - 1) as nat);
            if self.parents[n - 1] == Some(x) {
                prev.push((self.ids[n - 1], self.zkey(self.ids[n - 1]), (n - 1) as usize))
            } else {
                prev
            }
        }
    }

    /// Children of `x` in drawing order: by computed z-index, then by registration.
    pub open spec fn sorted_children(self, x: EntityId) -> Seq<EntityId> {
        isort(self.keyed_upto(x, self.ids.len())).map_values(|t: (EntityId, i32, usize)| t.0)
    }
}

/// Render order below `x`: each child in drawing order, followed by its own subtree.
pub open spec fn subtree_order(m: ZModel, h: Map<EntityId, nat>, b: nat, x: EntityId) -> Seq<EntityId>
    decreases level(m.tree(), h, b, x), 1nat, 0nat,
{
    forest_order(m, h, b, level(m.tree(), h, b, x), m.sorted_children(x))
}

pub open spec fn forest_order(m: ZModel, h: Map<EntityId, nat>, b: nat, bound: nat, cs: Seq<EntityId>) -> Seq<EntityId>
    decreases bound, 0nat, cs.len(),
    when forall|i: int| 0 <= i < cs.len() ==> level(m.tree(), h, b, #[trigger] cs[i]) < bound
{
    if cs.len() == 0 {
        Seq::empty()
    } else {
        forest_order(m, h, b, bound, cs.drop_last()) + seq![cs.last()] + subtree_order(m, h, b, cs.last())
    }
}

/// The z-indices computed for `x` at depth `d` and for everything below it.
pub open spec fn zmap(m: ZTree, h: Map<EntityId, nat>, b: nat, x: EntityId, d: int) -> Map<EntityId, i32>
    decreases level(m, h, b, x), 1nat, 0nat,
{
    Map::<EntityId, i32>::empty().insert(x, m.z(x, d) as i32).union_prefer_right(
        zforest(m, h, b, level(m, h, b, x), m.children(x), d + 1),
    )
}

pub open spec fn zforest(m: ZTree, h: Map<EntityId, nat>, b: nat, bound: nat, cs: Seq<EntityId>, d: int) -> Map<EntityId, i32>
    decreases bound, 0nat, cs.len(),
    when forall|i: int| 0 <= i < cs.len() ==> level(m, h, b, #[trigger] cs[i]) < bound
{
    if cs.len() == 0 {
        Map::empty()
    } else {
        zforest(m, h, b, bound, cs.drop_last(), d).union_prefer_right(zmap(m, h, b, cs.last(), d))
    }
}

/// Whether computing the z-indices from `x` at depth `d` downwards stays within `i32`.
pub open spec fn z_fits(m: ZTree, h: Map<EntityId, nat>, b: nat, x: EntityId, d: int) -> bool
    decreases level(m, h, b, x), 1nat, 0nat,
{
    &&& m.z_in_range(x, d)
    &&& m.children(x).len() > 0 ==> d + 1 <= i32::MAX
    &&& zforest_fits(m, h, b, level(m, h, b, x), m.children(x), d + 1)
}

pub open spec fn zforest_fits(m: ZTree, h: Map<EntityId, nat>, b: nat, bound: nat, cs: Seq<EntityId>, d: int) -> bool
    decreases bound, 0nat, cs.len(),
    when forall|i: int| 0 <= i < cs.len() ==> level(m, h, b, #[trigger] cs[i]) < bound
{
    if cs.len() == 0 {
        true
    } else {
        zforest_fits(m, h, b, bound, cs.drop_last(), d) && z_fits(m, h, b, cs.last(), d)
    }
}

proof fn lemma_first_after(s: Seq<(EntityId, i32, usize)>, x: (EntityId, i32, usize), j: nat)
    requires
        j <= s.len(),
        forall|i: int| 0 <= i < j ==> !key_lt(x, #[trigger] s[i]),
        j == s.len() || key_lt(x, s[j as int]),
    ensures
        first_after(s, x) == j,
    decreases s.len(),
{
    if s.len() > 0 && j > 0 {
        let t = s.drop_first();
        assert(!key_lt(x, s[0]));
        assert forall|i: int| 0 <= i < j - 1 implies !key_lt(x, #[trigger] t[i]) by {
            assert(t[i] == s[i + 1]);
        }
        if j < s.len() {
            assert(t[j - 1] == s[j as int]);
        }
        lemma_first_after(t, x, (j - 1) as nat);
    }
}

proof fn lemma_first_after_bound(s: Seq<(EntityId, i32, usize)>, x: (EntityId, i32, usize))
    ensures
        first_after(s, x) <= s.len(),
    decreases s.len(),
{
    if s.len() > 0 {
        lemma_first_after_bound(s.drop_first(), x);
    }
}

/// Sorting keeps exactly the same elements.
pub proof fn lemma_isort_perm(s: Seq<(EntityId, i32, usize)>)
    ensures
        isort(s).to_multiset() == s.to_multiset(),
        isort(s).len() == s.len(),
    decreases s.len(),
{
    broadcast use vstd::multiset::group_multiset_axioms;
    if s.len() > 0 {
        let init = s.drop_last();
        lemma_isort_perm(init);
        let r = isort(init);
        lemma_first_after_bound(r, s.last());
        let j = first_after(r, s.last()) as int;
        vstd::seq_lib::lemma_seq_union_to_multiset_commutative(r.subrange(0, j), r.subrange(j, r.len() as int));
        assert(r.insert(j, s.last()) =~= r.subrange(0, j) + seq![s.last()] + r.subrange(j, r.len() as int));
        assert(r =~= r.subrange(0, j) + r.subrange(j, r.len() as int));
        vstd::seq_lib::lemma_multiset_commutative(r.subrange(0, j) + seq![s.last()], r.subrange(j, r.len() as int));
        vstd::seq_lib::lemma_multiset_commutative(r.subrange(0, j), seq![s.last()]);
        vstd::seq_lib::lemma_multiset_commutative(r.subrange(0, j), r.subrange(j, r.len() as int));
        assert(s =~= init.push(s.last()));
        vstd::seq_lib::lemma_multiset_commutative(init, seq![s.last()]);
        assert(init.push(s.last()) =~= init + seq![s.last()]);
    }
}

/// Every element of a sorted sequence comes from the input.
pub proof fn lemma_isort_contains(s: Seq<(EntityId, i32, usize)>, i: int)
    requires
        0 <= i < isort(s).len(),
    ensures
        s.contains(isort(s)[i]),
{
    broadcast use vstd::multiset::group_multiset_axioms;
    lemma_isort_perm(s);
    let e = isort(s)[i];
    vstd::seq_lib::lemma_seq_contains_after_push(Seq::empty(), e, e);
    assert(isort(s).contains(e));
    vstd::seq_lib::to_multiset_contains(isort(s), e);
    vstd::seq_lib::to_multiset_contains(s, e);
}

impl ZModel {
    proof fn lemma_keyed_children(self, x: EntityId, n: nat)
        requires
            n <= self.ids.len(),
            self.ids.len() == self.parents.len(),
        ensures
            self.keyed_upto(x, n).map_values(|t: (EntityId, i32, usize)| t.0) == self.tree().children_upto(x, n),
            forall|i: int| 0 <= i < self.keyed_upto(x, n).len() ==> (#[trigger] self.keyed_upto(x, n)[i]).1
                == self.zkey(self.keyed_upto(x, n)[i].0),
        decreases n,
    {
        if n > 0 {
            self.lemma_keyed_children(x, (n - 1) as nat);
            assert(self.keyed_upto(x, n).map_values(|t: (EntityId, i32, usize)| t.0) =~= self.tree().children_upto(x, n));
        }
    }

    /// The drawing-ordered children are registered and sit below `x`.
    pub proof fn lemma_sorted_children_lower(self, h: Map<EntityId, nat>, b: nat, x: EntityId)
        requires
            self.tree().shape_wf(),
            valid_heights(self.tree(), h, b),
        ensures
            forall|i: int|
                0 <= i < self.sorted_children(x).len() ==> level(self.tree(), h, b, #[trigger] self.sorted_children(x)[i])
                    < level(self.tree(), h, b, x),
    {
        let n = self.ids.len();
        self.lemma_keyed_children(x, n);
        lemma_children_lower(self.tree(), h, b, x, n);
        let k = self.keyed_upto(x, n);
        lemma_isort_perm(k);
        assert forall|i: int| 0 <= i < self.sorted_children(x).len() implies level(self.tree(), h, b, #[trigger] self.sorted_children(x)[i])
            < level(self.tree(), h, b, x) by {
            lemma_isort_contains(k, i);
            let t = isort(k)[i];
            let j = choose|j: int| 0 <= j < k.len() && k[j] == t;
            assert(k.map_values(|t: (EntityId, i32, usize)| t.0)[j] == t.0);
            assert(self.tree().children_upto(x, n)[j] == t.0);
        }
    }

}

impl ZTree {
    pub proof fn lemma_children_lower_all(self, h: Map<EntityId, nat>, b: nat, x: EntityId)
        requires
            self.shape_wf(),
            valid_heights(self, h, b),
        ensures
            forall|i: int| 0 <= i < self.children(x).len() ==> level(self, h, b, #[trigger] self.children(x)[i]) < level(self, h, b, x),
    {
        lemma_children_lower(self, h, b, x, self.ids.len());
    }
}

/// Sorted by key: no later element sorts strictly before an earlier one.
pub open spec fn key_sorted(s: Seq<(EntityId, i32, usize)>) -> bool {
    forall|i: int, j: int| 0 <= i < j < s.len() ==> !key_lt(#[trigger] s[j], #[trigger] s[i])
}

proof fn lemma_first_after_char(s: Seq<(EntityId, i32, usize)>, x: (EntityId, i32, usize))
    ensures
        first_after(s, x) <= s.len(),
        forall|k: int| 0 <= k < first_after(s, x) ==> !key_lt(x, #[trigger] s[k]),
        first_after(s, x) < s.len() ==> key_lt(x, s[first_after(s, x) as int]),
    decreases s.len(),
{
    if s.len() > 0 {
        let t = s.drop_first();
        lemma_first_after_char(t, x);
        if !key_lt(x, s[0]) {
            assert forall|k: int| 0 <= k < first_after(s, x) implies !key_lt(x, #[trigger] s[k]) by {
                if k > 0 {
                    assert(s[k] == t[k - 1]);
                }
            }
            if first_after(s, x) < s.len() {
                assert(s[first_after(s, x) as int] == t[first_after(t, x) as int]);
            }
        }
    }
}

proof fn lemma_insert_sorted_sorted(s: Seq<(EntityId, i32, usize)>, x: (EntityId, i32, usize))
    requires
        key_sorted(s),
    ensures
        key_sorted(insert_sorted(s, x)),
{
    lemma_first_after_char(s, x);
    let j = first_after(s, x) as int;
    s.insert_ensures(j, x);
    let r = insert_sorted(s, x);
    assert forall|p: int, q: int| 0 <= p < q < r.len() implies !key_lt(#[trigger] r[q], #[trigger] r[p]) by {
        if q < j {
            assert(r[p] == s[p] && r[q] == s[q]);
        } else if q == j {
            assert(r[p] == s[p]);
        } else if p < j {
            assert(r[p] == s[p]);
            assert(r[(q - 1) + 1] == s[q - 1]);
        } else if p == j {
            assert(r[(q - 1) + 1] == s[q - 1]);
            if q - 1 > j {
                assert(!key_lt(s[q - 1], s[j]));
            }
        } else {
            assert(r[(p - 1) + 1] == s[p - 1]);
            assert(r[(q - 1) + 1] == s[q - 1]);
        }
    }
}

/// Insertion sort yields a key-sorted sequence.
pub proof fn lemma_isort_sorted(s: Seq<(EntityId, i32, usize)>)
    ensures
        key_sorted(isort(s)),
    decreases s.len(),
{
    if s.len() > 0 {
        lemma_isort_sorted(s.drop_last());
        lemma_insert_sorted_sorted(isort(s.drop_last()), s.last());
    }
}

/// Sorting a sequence without repeats yields one without repeats.
pub proof fn lemma_isort_no_dups(s: Seq<(EntityId, i32, usize)>)
    requires
        s.no_duplicates(),
    ensures
        isort(s).no_duplicates(),
    decreases s.len(),
{
    if s.len() > 0 {
        let init = s.drop_last();
        let x = s.last();
        assert(init.no_duplicates()) by {
            assert forall|p: int, q: int| 0 <= p < init.len() && 0 <= q < init.len() && p != q implies init[p] != init[q] by {
                assert(init[p] == s[p] && init[q] == s[q]);
            }
        }
        lemma_isort_no_dups(init);
        let r = isort(init);
        lemma_isort_perm(init);
        assert(!r.contains(x)) by {
            if r.contains(x) {
                let p = choose|p: int| 0 <= p < r.len() && r[p] == x;
                lemma_isort_contains(init, p);
                let q = choose|q: int| 0 <= q < init.len() && init[q] == x;
                assert(s[q] == s[s.len() - 1]);
            }
        }
        lemma_first_after_char(r, x);
        let j = first_after(r, x) as int;
        r.insert_ensures(j, x);
        let t = insert_sorted(r, x);
        assert forall|p: int, q: int| 0 <= p < t.len() && 0 <= q < t.len() && p != q implies t[p] != t[q] by {
            if p != j && q != j {
                let pp = if p < j { p } else { p - 1 };
                let qq = if q < j { q } else { q - 1 };
                if p > j {
                    assert(t[pp + 1] == r[pp]);
                }
                if q > j {
                    assert(t[qq + 1] == r[qq]);
                }
                assert(t[p] == r[pp] && t[q] == r[qq]);
            } else if p == j {
                let qq = if q < j { q } else { q - 1 };
                if q > j {
                    assert(t[qq + 1] == r[qq]);
                }
                assert(t[q] == r[qq]);
            } else {
                let pp = if p < j { p } else { p - 1 };
                if p > j {
                    assert(t[pp + 1] == r[pp]);
                }
                assert(t[p] == r[pp]);
            }
        }
    }
}

impl ZModel {
    /// Each keyed child carries its own registration position, and no
    /// registration position repeats.
    proof fn lemma_keyed_positions(self, x: EntityId, n: nat)
        requires
            n <= self.ids.len(),
            self.tree().shape_wf(),
        ensures
            forall|i: int| 0 <= i < self.keyed_upto(x, n).len() ==> {
                &&& (#[trigger] self.keyed_upto(x, n)[i]).2 < n
                &&& self.tree().pos(self.keyed_upto(x, n)[i].0) == self.keyed_upto(x, n)[i].2
                &&& self.keyed_upto(x, n)[i].1 == self.zkey(self.keyed_upto(x, n)[i].0)
            },
            forall|i: int, j: int| 0 <= i < j < self.keyed_upto(x, n).len() ==> (#[trigger] self.keyed_upto(x, n)[i]).2
                < (#[trigger] self.keyed_upto(x, n)[j]).2,
        decreases n,
    {
        if n > 0 {
            self.lemma_keyed_positions(x, (n - 1) as nat);
            let prev = self.keyed_upto(x, (n - 1) as nat);
            let cur = self.keyed_upto(x, n);
            lemma_pos_in(self.ids, self.ids[n - 1]);
            assert forall|i: int| 0 <= i < cur.len() implies {
                &&& (#[trigger] cur[i]).2 < n
                &&& self.tree().pos(cur[i].0) == cur[i].2
                &&& cur[i].1 == self.zkey(cur[i].0)
            } by {
                if i < prev.len() {
                    assert(cur[i] == prev[i]);
                }
            }
            assert forall|i: int, j: int| 0 <= i < j < cur.len() implies (#[trigger] cur[i]).2 < (#[trigger] cur[j]).2 by {
                assert(cur[i] == prev[i]);
                if j < prev.len() {
                    assert(cur[j] == prev[j]);
                }
            }
        }
    }
}

/// Siblings are drawn in order of computed z-index (0 for a component whose
/// index was never computed), and siblings with equal z-index in the order
/// they were registered.
pub proof fn law_siblings_in_z_order(m: ZModel, x: EntityId)
    requires
        m.tree().shape_wf(),
    ensures
        forall|i: int, j: int|
            0 <= i < j < m.sorted_children(x).len() ==> {
                let a = #[trigger] m.sorted_children(x)[i];
                let b = #[trigger] m.sorted_children(x)[j];
                ||| m.zkey(a) < m.zkey(b)
                ||| (m.zkey(a) == m.zkey(b) && m.tree().pos(a) < m.tree().pos(b))
            },
{
    let k = m.keyed_upto(x, m.ids.len());
    let r = isort(k);
    m.lemma_keyed_positions(x, m.ids.len());
    lemma_isort_sorted(k);
    lemma_isort_perm(k);
    assert forall|i: int, j: int| 0 <= i < j < m.sorted_children(x).len() implies {
        let a = #[trigger] m.sorted_children(x)[i];
        let b = #[trigger] m.sorted_children(x)[j];
        ||| m.zkey(a) < m.zkey(b)
        ||| (m.zkey(a) == m.zkey(b) && m.tree().pos(a) < m.tree().pos(b))
    } by {
        lemma_isort_contains(k, i);
        lemma_isort_contains(k, j);
        let ti = r[i];
        let tj = r[j];
        let ii = choose|ii: int| 0 <= ii < k.len() && k[ii] == ti;
        let jj = choose|jj: int| 0 <= jj < k.len() && k[jj] == tj;
        assert(k[ii].2 == m.tree().pos(ti.0));
        assert(k[jj].2 == m.tree().pos(tj.0));
        assert(!key_lt(r[j], r[i]));
        if ti.2 == tj.2 && ti.1 == tj.1 {
            lemma_pos_in(m.ids, ti.0);
            lemma_pos_in(m.ids, tj.0);
            assert(ti.0 == tj.0);
            assert(ti == tj);
            assert(k.no_duplicates()) by {
                assert forall|p: int, q: int| 0 <= p < k.len() && 0 <= q < k.len() && p != q implies k[p] != k[q] by {
                    if p < q {
                        assert(k[p].2 < k[q].2);
                    } else {
                        assert(k[q].2 < k[p].2);
                    }
                }
            }
            lemma_isort_no_dups(k);
            assert(r[i] != r[j]);
        }
    }
}

/// Insert `x` into the sorted `v` before the first element it sorts before.
fn insert_sorted_exec(v: &mut Vec<(EntityId, i32, usize)>, x: (EntityId, i32, usize))
    ensures
        final(v)@ == insert_sorted(old(v)@, x),
{
    let mut j: usize = 0;
    while j < v.len()
        invariant
            j <= v@.len(),
            v@ == old(v)@,
            forall|i: int| 0 <= i < j ==> !key_lt(x, #[trigger] v@[i]),
        ensures
            j <= v@.len(),
            v@ == old(v)@,
            forall|i: int| 0 <= i < j ==> !key_lt(x, #[trigger] v@[i]),
            j == v@.len() || key_lt(x, v@[j as int]),
        decreases v@.len() - j,
    {
        let e = v[j];
        if x.1 < e.1 || (x.1 == e.1 && x.2 < e.2) {
            break;
        }
        j += 1;
    }
    proof {
        lemma_first_after(v@, x, j as nat);
    }
    v.insert(j, x);
}

/// Insertion sort of children by (z-index, registration position).
fn sort_keyed(items: Vec<(EntityId, i32, usize)>) -> (r: Vec<(EntityId, i32, usize)>)
    ensures
        r@ == isort(items@),
{
    let mut out: Vec<(EntityId, i32, usize)> = Vec::new();
    let mut i: usize = 0;
    while i < items.len()
        invariant
            i <= items@.len(),
            out@ == isort(items@.take(i as int)),
        decreases items@.len() - i,
    {
        proof {
            assert(items@.take(i + 1).drop_last() =~= items@.take(i as int));
            assert(items@.take(i + 1).last() == items@[i as int]);
        }
        insert_sorted_exec(&mut out, items[i]);
        i += 1;
    }
    proof {
        assert(items@.take(i as int) =~= items@);
    }
    out
}

/// Tracks the component hierarchy, per-component adjustments, and the
/// z-indices derived from them.
pub struct ZIndexManager {
    ids: Vec<EntityId>,
    parents: Vec<Option<EntityId>>,
    adjustments: EntityMap<i32>,
    computed: EntityMap<i32>,
    level_increment: i32,
    dirty: bool,
    root_id: Option<EntityId>,
    heights: Ghost<Map<EntityId, nat>>,
    height_bound: Ghost<nat>,
}

impl View for ZIndexManager {
    type V = ZModel;

    closed spec fn view(&self) -> ZModel {
        ZModel {
            ids: self.ids@,
            parents: self.parents@,
            adjustments: self.adjustments@,
            computed: self.computed@,
            level_increment: self.level_increment,
            dirty: self.dirty,
            root: self.root_id,
        }
    }
}

impl Default for ZIndexManager {
    fn default() -> (r: Self)
        ensures
            r.wf(),
            r@ == (ZModel {
                ids: Seq::empty(),
                parents: Seq::empty(),
                adjustments: Map::empty(),
                computed: Map::empty(),
                level_increment: 1000,
                dirty: true,
                root: None,
            }),
    {
        ZIndexManager::new()
    }
}

impl ZIndexManager {
    pub closed spec fn wf(&self) -> bool {
        &&& self@.tree().shape_wf()
        &&& self.adjustments.wf()
        &&& self.computed.wf()
        &&& self.level_increment == 1000
        &&& valid_heights(self@.tree(), self.heights@, self.height_bound@)
    }

    /// What well-formedness guarantees of the heights that order the tree:
    /// they grow strictly from a registered child to its parent and stay
    /// below the bound, over a tree of distinct ids. Callers use it to show
    /// that the z-indices of a given tree fit (`z_fits`).
    pub proof fn lemma_wf_heights(&self)
        requires
            self.wf(),
        ensures
            valid_heights(self@.tree(), self.heights(), self.bound()),
            self@.tree().shape_wf(),
    {
    }

    pub closed spec fn heights(&self) -> Map<EntityId, nat> {
        self.heights@
    }

    pub closed spec fn bound(&self) -> nat {
        self.height_bound@
    }

    pub fn new() -> (r: Self)
        ensures
            r.wf(),
            r@ == (ZModel {
                ids: Seq::empty(),
                parents: Seq::empty(),
                adjustments: Map::empty(),
                computed: Map::empty(),
                level_increment: 1000,
                dirty: true,
                root: None,
            }),
    {
        ZIndexManager {
            ids: Vec::new(),
            parents: Vec::new(),
            adjustments: EntityMap::new(),
            computed: EntityMap::new(),
            level_increment: 1000,
            dirty: true,
            root_id: None,
            heights: Ghost(Map::empty()),
            height_bound: Ghost(0),
        }
    }

    /// Forget every registration, adjustment and computed index.
    pub fn clear(&mut self)
        requires
            old(self).wf(),
        ensures
            final(self).wf(),
            final(self)@ == (ZModel {
                ids: Seq::empty(),
                parents: Seq::empty(),
                adjustments: Map::empty(),
                computed: Map::empty(),
                level_increment: old(self)@.level_increment,
                dirty: true,
                root: None,
            }),
    {
        self.ids.clear();
        self.parents.clear();
        self.adjustments.clear();
        self.computed.clear();
        self.dirty = true;
        self.root_id = None;
        self.heights = Ghost(Map::empty());
        self.height_bound = Ghost(0);
        proof {
            assert(self.ids@ =~= Seq::<EntityId>::empty());
            assert(self.parents@ =~= Seq::<Option<EntityId>>::empty());
        }
    }

    pub fn set_root_id(&mut self, root_id: EntityId)
        requires
            old(self).wf(),
        ensures
            final(self).wf(),
            final(self)@ == (ZModel { root: Some(root_id), ..old(self)@ }),
            final(self).heights() == old(self).heights(),
            final(self).bound() == old(self).bound(),
    {
        self.root_id = Some(root_id);
    }

    /// Set the manual adjustment of a component, relative to its siblings.
    pub fn set_adjustment(&mut self, component_id: EntityId, adjustment: i32)
        requires
            old(self).wf(),
        ensures
            final(self).wf(),
            final(self)@ == (ZModel {
                adjustments: old(self)@.adjustments.insert(component_id, adjustment),
                dirty: true,
                ..old(self)@
            }),
            final(self).heights() == old(self).heights(),
            final(self).bound() == old(self).bound(),
    {
        self.adjustments.insert(component_id, adjustment);
        self.dirty = true;
    }

    fn position(&self, x: EntityId) -> (r: Option<usize>)
        requires
            self.wf(),
        ensures
            match r {
                Some(i) => i == self@.tree().pos(x) && i < self@.ids.len(),
                None => self@.tree().pos(x) == -1,
            },
    {
        proof {
            lemma_pos_in(self.ids@, x);
        }
        let mut i: usize = 0;
        while i < self.ids.len()
            invariant
                self.wf(),
                i <= self.ids@.len(),
                forall|j: int| 0 <= j < i ==> self.ids@[j] != x,
            decreases self.ids@.len() - i,
        {
            if self.ids[i] == x {
                assert(self.ids@[i as int] == x);
                proof {
                    lemma_pos_in(self.ids@, x);
                }
                return Some(i);
            }
            i += 1;
        }
        None
    }

    /// Whether `component_id` has been registered.
    pub fn is_registered(&self, component_id: EntityId) -> (r: bool)
        requires
            self.wf(),
        ensures
            r == self@.tree().registered(component_id),
    {
        match self.position(component_id) {
            Some(_) => true,
            None => false,
        }
    }

    /// The parent `x` was registered with (none if `x` is unregistered).
    fn parent_of(&self, x: EntityId) -> (r: Option<EntityId>)
        requires
            self.wf(),
        ensures
            r == self@.tree().parent(x),
    {
        match self.position(x) {
            Some(i) => self.parents[i],
            None => None,
        }
    }

    /// Whether giving `component_id` the parent `parent_id` would close a
    /// cycle: walking up from `parent_id` meets `component_id`.
    pub fn would_create_cycle(&self, component_id: EntityId, parent_id: EntityId) -> (r: bool)
        requires
            self.wf(),
        ensures
            r == self@.tree().chain_hits(parent_id, component_id),
    {
        let ghost m = self@.tree();
        let ghost h = self.heights@;
        let ghost b = self.height_bound@;
        let mut current: Option<EntityId> = Some(parent_id);
        let mut visited: Vec<EntityId> = Vec::new();
        let ghost mut k: nat = 0;
        loop
            invariant
                self.wf(),
                m == self@.tree(),
                h == self.heights@,
                b == self.height_bound@,
                current == m.ancestor(parent_id, k),
                forall|j: nat| j < k ==> #[trigger] m.ancestor(parent_id, j) != Some(component_id),
                current is Some ==> forall|i: int| 0 <= i < visited@.len() ==> #[trigger] m.registered(visited@[i])
                    && level(m, h, b, visited@[i]) < level(m, h, b, current.unwrap()),
            decreases (match current {
                Some(id) => b + 1 - level(m, h, b, id),
                None => 0,
            }),
        {
            match current {
                None => {
                    proof {
                        assert forall|j: nat| #[trigger] m.ancestor(parent_id, j) != Some(component_id) by {
                            if j >= k {
                                lemma_ancestor_none_after(m, parent_id, k, j);
                            }
                        }
                    }
                    return false;
                },
                Some(id) => {
                    let seen = contains_id(&visited, id);
                    if seen || id == component_id {
                        proof {
                            if seen {
                                let i = choose|i: int| 0 <= i < visited@.len() && visited@[i] == id;
                                assert(level(m, h, b, visited@[i]) < level(m, h, b, id));
                            }
                        }
                        return true;
                    }
                    let ghost old_visited = visited@;
                    visited.push(id);
                    let next = self.parent_of(id);
                    proof {
                        assert(valid_heights(m, h, b));
                        if m.registered(id) {
                            let pi = m.pos(id);
                            lemma_pos_in(m.ids, id);
                            assert(m.ids[pi] == id);
                            assert(0 <= pi < m.ids.len());
                            assert(h.contains_key(m.ids[pi]));
                            assert(h[m.ids[pi]] < b);
                            if next is Some && m.registered(next.unwrap()) {
                                assert(m.parents[pi] is Some);
                            }
                        }
                        lemma_level_bounded(m, h, b, id);
                        if next is Some {
                            lemma_level_bounded(m, h, b, next.unwrap());
                            lemma_parent_higher(m, h, b, id);
                            assert forall|i: int| 0 <= i < visited@.len() implies #[trigger] m.registered(visited@[i]) && level(m, h, b, visited@[i]) < level(m, h, b, next.unwrap()) by {
                                if i < visited@.len() - 1 {
                                    assert(visited@[i] == old_visited[i]);
                                }
                            }
                        }
                        k = k + 1;
                    }
                    current = next;
                },
            }
        }
    }

    /// Register `component_id` under `parent_id`.
    #[verifier::spinoff_prover]
    pub fn register_component(&mut self, component_id: EntityId, parent_id: Option<EntityId>)
        requires
            old(self).wf(),
            !old(self)@.tree().registered(component_id),
            parent_id != Some(component_id),
            parent_id matches Some(p) ==> !old(self)@.tree().chain_hits(p, component_id),
            old(self)@.ids.len() + 2 < usize::MAX,
        ensures
            final(self).wf(),
            final(self)@ == (ZModel {
                ids: old(self)@.ids.push(component_id),
                parents: old(self)@.parents.push(parent_id),
                dirty: true,
                ..old(self)@
            }),
    {
        match parent_id {
            Some(pid) => {
                if pid == component_id || self.would_create_cycle(component_id, pid) {
                    return;
                }
            },
            None => {},
        }
        let ghost m = self@.tree();
        let ghost h = self.heights@;
        let ghost b = self.height_bound@;
        self.ids.push(component_id);
        self.parents.push(parent_id);
        self.dirty = true;
        proof {
            let c = component_id;
            let nh = Map::new(
                |y: EntityId| h.contains_key(y) || y == c,
                |y: EntityId|
                    if y == c {
                        b
                    } else if parent_id is Some && m.chain_hits(parent_id.unwrap(), y) {
                        h[y] + b + 1
                    } else {
                        h[y]
                    },
            );
            let nm = self@.tree();
            lemma_pos_in(m.ids, c);
            assert(nm.ids.no_duplicates()) by {
                assert forall|i: int, j: int| 0 <= i < nm.ids.len() && 0 <= j < nm.ids.len() && i != j implies nm.ids[i] != nm.ids[j] by {
                    if i < m.ids.len() && j < m.ids.len() {
                        assert(nm.ids[i] == m.ids[i] && nm.ids[j] == m.ids[j]);
                    } else if i < m.ids.len() {
                        assert(nm.ids[i] == m.ids[i]);
                        assert(m.ids.contains(nm.ids[i]));
                    } else {
                        assert(nm.ids[j] == m.ids[j]);
                        assert(m.ids.contains(nm.ids[j]));
                    }
                }
            }
            assert forall|x: EntityId| x != c implies #[trigger] nm.pos(x) == m.pos(x) by {
                assert(nm.ids.drop_last() =~= m.ids);
            }
            assert(nm.pos(c) == m.ids.len()) by {
                assert(nm.ids.last() == c);
            }
            assert forall|i: int| 0 <= i < nm.ids.len() implies #[trigger] nh.contains_key(nm.ids[i]) && nh[nm.ids[i]] < 2 * b + 2 by {
                if i < m.ids.len() {
                    assert(nm.ids[i] == m.ids[i]);
                    assert(h.contains_key(m.ids[i]));
                }
            }
            assert forall|i: int|
                0 <= i < nm.ids.len() && (#[trigger] nm.parents[i]) is Some && nm.registered(nm.parents[i].unwrap())
                implies nh[nm.parents[i].unwrap()] > nh[nm.ids[i]] by {
                let q = nm.parents[i].unwrap();
                if i == m.ids.len() {
                    assert(nm.ids[i] == c);
                    assert(q != c);
                    assert(m.registered(q));
                    assert(m.ancestor(q, 0) == Some(q));
                    assert(m.chain_hits(q, q));
                    lemma_pos_in(m.ids, q);
                    let qi = m.pos(q);
                    assert(h.contains_key(m.ids[qi]));
                } else {
                    let y = m.ids[i];
                    assert(nm.ids[i] == y);
                    assert(nm.parents[i] == m.parents[i]);
                    assert(y != c);
                    lemma_pos_in(m.ids, y);
                    assert(m.pos(y) == i);
                    assert(m.parent(y) == Some(q));
                    if q == c {
                        if parent_id is Some && m.chain_hits(parent_id.unwrap(), y) {
                            let kk = choose|kk: nat| #[trigger] m.ancestor(parent_id.unwrap(), kk) == Some(y);
                            assert(m.ancestor(parent_id.unwrap(), kk + 1) == Some(c));
                        }
                    } else {
                        assert(m.registered(q));
                        assert(h[q] > h[y]);
                        lemma_pos_in(m.ids, q);
                        let qi = m.pos(q);
                        assert(h.contains_key(m.ids[qi]));
                        if parent_id is Some && m.chain_hits(parent_id.unwrap(), y) {
                            let kk = choose|kk: nat| #[trigger] m.ancestor(parent_id.unwrap(), kk) == Some(y);
                            assert(m.ancestor(parent_id.unwrap(), kk + 1) == Some(q));
                        }
                    }
                }
            }
            self.heights = Ghost(nh);
            self.height_bound = Ghost(2 * b + 2);
        }
    }

    fn collect_children(&self, x: EntityId) -> (r: Vec<EntityId>)
        requires
            self.wf(),
        ensures
            r@ == self@.tree().children(x),
    {
        let mut out: Vec<EntityId> = Vec::new();
        let mut i: usize = 0;
        while i < self.ids.len()
            invariant
                self.wf(),
                i <= self.ids@.len(),
                out@ == self@.tree().children_upto(x, i as nat),
            decreases self.ids@.len() - i,
        {
            match self.parents[i] {
                Some(p) => {
                    if p == x {
                        out.push(self.ids[i]);
                    }
                },
                None => {},
            }
            i += 1;
        }
        out
    }

    fn keyed_children(&self, x: EntityId) -> (r: Vec<(EntityId, i32, usize)>)
        requires
            self.wf(),
        ensures
            r@ == self@.keyed_upto(x, self@.ids.len()),
    {
        let mut out: Vec<(EntityId, i32, usize)> = Vec::new();
        let mut i: usize = 0;
        while i < self.ids.len()
            invariant
                self.wf(),
                i <= self.ids@.len(),
                out@ == self@.keyed_upto(x, i as nat),
            decreases self.ids@.len() - i,
        {
            match self.parents[i] {
                Some(p) => {
                    if p == x {
                        let id = self.ids[i];
                        let z = match self.computed.get(id) {
                            Some(v) => v,
                            None => 0,
                        };
                        out.push((id, z, i));
                    }
                },
                None => {},
            }
            i += 1;
        }
        out
    }

    /// Compute the absolute z-index of `component_id` at `depth` and of
    /// everything below it: `depth * level_increment + adjustment + parent's adjustment`.
    fn compute_component_z_index(&mut self, component_id: EntityId, depth: i32)
        requires
            old(self).wf(),
            z_fits(old(self)@.tree(), old(self).heights(), old(self).bound(), component_id, depth as int),
        ensures
            final(self).wf(),
            final(self).heights() == old(self).heights(),
            final(self).bound() == old(self).bound(),
            final(self)@ == (ZModel {
                computed: old(self)@.computed.union_prefer_right(
                    zmap(old(self)@.tree(), old(self).heights(), old(self).bound(), component_id, depth as int),
                ),
                ..old(self)@
            }),
        decreases level(self@.tree(), self.heights(), self.bound(), component_id),
    {
        let ghost full = self@;
        let ghost m = self@.tree();
        let ghost h = self.heights@;
        let ghost b = self.height_bound@;
        let adjustment: i32 = match self.adjustments.get(component_id) {
            Some(a) => a,
            None => 0,
        };
        let parent_adjustment: i32 = match self.parent_of(component_id) {
            Some(pid) => match self.adjustments.get(pid) {
                Some(a) => a,
                None => 0,
            },
            None => 0,
        };
        let scaled: i32 = depth * self.level_increment;
        let adjusted: i32 = scaled + adjustment;
        let absolute_z_index: i32 = adjusted + parent_adjustment;
        self.computed.insert(component_id, absolute_z_index);
        let children = self.collect_children(component_id);
        proof {
            m.lemma_children_lower_all(h, b, component_id);
            lemma_zforest_fits_each(m, h, b, level(m, h, b, component_id), m.children(component_id), depth + 1);
        }
        let ghost start = full.computed.union_prefer_right(Map::<EntityId, i32>::empty().insert(component_id, m.z(component_id, depth as int) as i32));
        proof {
            assert(children@.take(0) =~= Seq::<EntityId>::empty());
            assert(self@.computed =~= start.union_prefer_right(zforest(m, h, b, level(m, h, b, component_id), children@.take(0), depth + 1)));
        }
        let mut i: usize = 0;
        while i < children.len()
            invariant
                self.wf(),
                self.heights@ == h,
                self.height_bound@ == b,
                self@ == (ZModel { computed: self@.computed, ..full }),
                self@.tree() == m,
                m == old(self)@.tree(),
                h == old(self).heights(),
                b == old(self).bound(),
                children@ == m.children(component_id),
                i <= children@.len(),
                forall|j: int| 0 <= j < children@.len() ==> level(m, h, b, #[trigger] children@[j]) < level(m, h, b, component_id),
                forall|j: int| 0 <= j < children@.len() ==> z_fits(m, h, b, #[trigger] children@[j], depth + 1),
                children@.len() > 0 ==> depth + 1 <= i32::MAX,
                self@.computed == start.union_prefer_right(zforest(m, h, b, level(m, h, b, component_id), children@.take(i as int), depth + 1)),
            decreases children@.len() - i,
        {
            let child = children[i];
            proof {
                assert(children@[i as int] == child);
            }
            self.compute_component_z_index(child, depth + 1);
            proof {
                let bound = level(m, h, b, component_id);
                let cs = children@.take(i + 1);
                assert(cs.drop_last() =~= children@.take(i as int));
                assert(cs.last() == child);
                assert(forall|j: int| 0 <= j < cs.len() ==> level(m, h, b, #[trigger] cs[j]) < bound) by {
                    assert forall|j: int| 0 <= j < cs.len() implies level(m, h, b, #[trigger] cs[j]) < bound by {
                        assert(cs[j] == children@[j]);
                    }
                }
                let prev = zforest(m, h, b, bound, children@.take(i as int), depth + 1);
                assert(zforest(m, h, b, bound, cs, depth + 1) == prev.union_prefer_right(zmap(m, h, b, child, depth + 1)));
                assert(self@.computed =~= start.union_prefer_right(prev).union_prefer_right(zmap(m, h, b, child, depth + 1)));
                assert(start.union_prefer_right(prev).union_prefer_right(zmap(m, h, b, child, depth + 1))
                    =~= start.union_prefer_right(prev.union_prefer_right(zmap(m, h, b, child, depth + 1))));
            }
            i += 1;
        }
        proof {
            assert(children@.take(i as int) =~= children@);
            let z = zforest(m, h, b, level(m, h, b, component_id), children@, depth + 1);
            assert(zmap(m, h, b, component_id, depth as int) == Map::<EntityId, i32>::empty().insert(component_id, m.z(component_id, depth as int) as i32).union_prefer_right(z));
            assert(self@.computed =~= full.computed.union_prefer_right(zmap(m, h, b, component_id, depth as int)));
        }
    }

    /// Recompute every z-index below the root.
    fn compute_all_z_indices(&mut self)
        requires
            old(self).wf(),
            old(self)@.root is Some,
            z_fits(old(self)@.tree(), old(self).heights(), old(self).bound(), old(self)@.root.unwrap(), 0),
        ensures
            final(self).wf(),
            final(self).heights() == old(self).heights(),
            final(self).bound() == old(self).bound(),
            final(self)@ == (ZModel {
                computed: zmap(old(self)@.tree(), old(self).heights(), old(self).bound(), old(self)@.root.unwrap(), 0),
                dirty: false,
                ..old(self)@
            }),
    {
        self.computed.clear();
        let root = match self.root_id {
            Some(r) => r,
            None => {
                return;
            },
        };
        self.compute_component_z_index(root, 0);
        self.dirty = false;
        proof {
            let z = zmap(old(self)@.tree(), old(self).heights(), old(self).bound(), root, 0);
            assert(Map::<EntityId, i32>::empty().union_prefer_right(z) =~= z);
        }
    }

    /// Append, below `parent_id`, each child in drawing order followed by its own subtree.
    fn add_children_to_render_order(&self, parent_id: EntityId, render_order: &mut Vec<EntityId>)
        requires
            self.wf(),
        ensures
            final(render_order)@ == old(render_order)@ + subtree_order(self@, self.heights(), self.bound(), parent_id),
        decreases level(self@.tree(), self.heights(), self.bound(), parent_id),
    {
        let ghost m = self@;
        let ghost h = self.heights@;
        let ghost b = self.height_bound@;
        let ghost bound = level(m.tree(), h, b, parent_id);
        let keyed = self.keyed_children(parent_id);
        let children = sort_keyed(keyed);
        let ghost ids = children@.map_values(|t: (EntityId, i32, usize)| t.0);
        proof {
            assert(ids == m.sorted_children(parent_id));
            m.lemma_sorted_children_lower(h, b, parent_id);
            assert(ids.take(0) =~= Seq::<EntityId>::empty());
            assert(render_order@ =~= old(render_order)@ + forest_order(m, h, b, bound, ids.take(0)));
        }
        let mut i: usize = 0;
        while i < children.len()
            invariant
                self.wf(),
                m == self@,
                h == self.heights@,
                b == self.height_bound@,
                bound == level(m.tree(), h, b, parent_id),
                ids == children@.map_values(|t: (EntityId, i32, usize)| t.0),
                forall|j: int| 0 <= j < ids.len() ==> level(m.tree(), h, b, #[trigger] ids[j]) < bound,
                i <= children@.len(),
                render_order@ == old(render_order)@ + forest_order(m, h, b, bound, ids.take(i as int)),
            decreases children@.len() - i,
        {
            let child = children[i].0;
            proof {
                assert(ids[i as int] == child);
            }
            render_order.push(child);
            self.add_children_to_render_order(child, render_order);
            proof {
                let cs = ids.take(i + 1);
                assert(cs.drop_last() =~= ids.take(i as int));
                assert(cs.last() == child);
                assert forall|j: int| 0 <= j < cs.len() implies level(m.tree(), h, b, #[trigger] cs[j]) < bound by {
                    assert(cs[j] == ids[j]);
                }
                assert(forest_order(m, h, b, bound, cs) == forest_order(m, h, b, bound, ids.take(i as int)) + seq![child]
                    + subtree_order(m, h, b, child));
                assert(render_order@ =~= old(render_order)@ + forest_order(m, h, b, bound, cs));
            }
            i += 1;
        }
        proof {
            assert(ids.take(i as int) =~= ids);
        }
    }

    /// Whether the z-indices from `x` at depth `depth` downwards fit in `i32`.
    fn fits_from(&self, x: EntityId, depth: i64) -> (r: bool)
        requires
            self.wf(),
            0 <= depth <= i32::MAX,
        ensures
            r == z_fits(self@.tree(), self.heights(), self.bound(), x, depth as int),
        decreases level(self@.tree(), self.heights(), self.bound(), x),
    {
        let ghost m = self@.tree();
        let ghost h = self.heights@;
        let ghost b = self.height_bound@;
        let adjustment: i64 = match self.adjustments.get(x) {
            Some(a) => a as i64,
            None => 0,
        };
        let parent_adjustment: i64 = match self.parent_of(x) {
            Some(pid) => match self.adjustments.get(pid) {
                Some(a) => a as i64,
                None => 0,
            },
            None => 0,
        };
        let scaled: i64 = depth * 1000;
        let adjusted: i64 = scaled + adjustment;
        let absolute: i64 = adjusted + parent_adjustment;
        let in_range = scaled <= i32::MAX as i64 && i32::MIN as i64 <= adjusted && adjusted <= i32::MAX as i64
            && i32::MIN as i64 <= absolute && absolute <= i32::MAX as i64;
        assert(in_range == m.z_in_range(x, depth as int));
        let children = self.collect_children(x);
        proof {
            m.lemma_children_lower_all(h, b, x);
        }
        let ghost bound = level(m, h, b, x);
        let mut ok: bool = true;
        if children.len() > 0 && depth >= i32::MAX as i64 {
            ok = false;
        }
        let mut all_fit: bool = true;
        let mut i: usize = 0;
        proof {
            assert(children@.take(0) =~= Seq::<EntityId>::empty());
            assert(zforest_fits(m, h, b, bound, children@.take(0), depth + 1));
        }
        while i < children.len()
            invariant
                self.wf(),
                m == self@.tree(),
                h == self.heights(),
                b == self.bound(),
                bound == level(m, h, b, x),
                0 <= depth <= i32::MAX,
                children@ == m.children(x),
                i <= children@.len(),
                forall|j: int| 0 <= j < children@.len() ==> level(m, h, b, #[trigger] children@[j]) < bound,
                depth < i32::MAX ==> all_fit == zforest_fits(m, h, b, bound, children@.take(i as int), depth + 1),
                i == 0 ==> all_fit,
            decreases children@.len() - i,
        {
            if depth < i32::MAX as i64 {
                let child = children[i];
                let f = self.fits_from(child, depth + 1);
                proof {
                    let cs = children@.take(i + 1);
                    assert(cs.drop_last() =~= children@.take(i as int));
                    assert(cs.last() == child);
                    assert forall|j: int| 0 <= j < cs.len() implies level(m, h, b, #[trigger] cs[j]) < bound by {
                        assert(cs[j] == children@[j]);
                    }
                }
                all_fit = all_fit && f;
            }
            i += 1;
        }
        proof {
            assert(children@.take(i as int) =~= children@);
            if children@.len() == 0 {
                assert(zforest_fits(m, h, b, bound, children@, depth + 1));
            }
            assert(z_fits(m, h, b, x, depth as int) == (m.z_in_range(x, depth as int) && (children@.len() > 0 ==> depth + 1
                <= i32::MAX) && zforest_fits(m, h, b, bound, children@, depth + 1)));
        }
        in_range && ok && all_fit
    }

    /// The render order, as [`generate_render_order`](Self::generate_render_order)
    /// gives it, when its z-indices can be recomputed within `i32`; `None`
    /// (and nothing changed) when they cannot, or when a recomputation is
    /// due and no root is set.
    pub fn checked_render_order(&mut self) -> (r: Option<Vec<EntityId>>)
        requires
            old(self).wf(),
        ensures
            final(self).wf(),
            r is None <==> (old(self)@.dirty && !(old(self)@.root is Some && z_fits(
                old(self)@.tree(),
                old(self).heights(),
                old(self).bound(),
                old(self)@.root.unwrap(),
                0,
            ))),
            r is None ==> *final(self) == *old(self),
            r matches Some(v) ==> {
                &&& final(self)@ == (if old(self)@.dirty {
                    ZModel {
                        computed: zmap(old(self)@.tree(), old(self).heights(), old(self).bound(), old(self)@.root.unwrap(), 0),
                        dirty: false,
                        ..old(self)@
                    }
                } else {
                    old(self)@
                })
                &&& v@ == match old(self)@.root {
                    Some(root) => seq![root] + subtree_order(final(self)@, final(self).heights(), final(self).bound(), root),
                    None => Seq::<EntityId>::empty(),
                }
            },
    {
        if self.dirty {
            match self.root_id {
                Some(root) => {
                    if !self.fits_from(root, 0) {
                        return None;
                    }
                },
                None => {
                    return None;
                },
            }
        }
        Some(self.generate_render_order())
    }

    /// The order in which to draw the tree: the root, then each child in
    /// order of computed z-index (ties by registration order) followed by
    /// its own subtree. Z-indices are recomputed first if anything changed.
    pub fn generate_render_order(&mut self) -> (r: Vec<EntityId>)
        requires
            old(self).wf(),
            old(self)@.dirty ==> old(self)@.root is Some && z_fits(
                old(self)@.tree(),
                old(self).heights(),
                old(self).bound(),
                old(self)@.root.unwrap(),
                0,
            ),
        ensures
            final(self).wf(),
            final(self).heights() == old(self).heights(),
            final(self).bound() == old(self).bound(),
            final(self)@ == (if old(self)@.dirty {
                ZModel {
                    computed: zmap(old(self)@.tree(), old(self).heights(), old(self).bound(), old(self)@.root.unwrap(), 0),
                    dirty: false,
                    ..old(self)@
                }
            } else {
                old(self)@
            }),
            r@ == match old(self)@.root {
                Some(root) => seq![root] + subtree_order(final(self)@, final(self).heights(), final(self).bound(), root),
                None => Seq::<EntityId>::empty(),
            },
    {
        if self.dirty {
            self.compute_all_z_indices();
        }
        let mut render_order: Vec<EntityId> = Vec::new();
        match self.root_id {
            Some(root_id) => {
                render_order.push(root_id);
                self.add_children_to_render_order(root_id, &mut render_order);
                proof {
                    assert(seq![root_id] =~= Seq::<EntityId>::empty().push(root_id));
                }
            },
            None => {},
        }
        render_order
    }
}

/// Every entry of `order` hangs directly below `top`, or below an entry
/// that comes earlier in `order`.
pub open spec fn parents_first(t: ZTree, order: Seq<EntityId>, top: EntityId) -> bool {
    forall|i: int|
        0 <= i < order.len() ==> t.parent(#[trigger] order[i]) == Some(top) || exists|j: int|
            0 <= j < i && t.parent(order[i]) == Some(order[j])
}

proof fn lemma_sorted_children_parent(m: ZModel, h: Map<EntityId, nat>, b: nat, x: EntityId)
    requires
        m.tree().shape_wf(),
        valid_heights(m.tree(), h, b),
    ensures
        forall|i: int| 0 <= i < m.sorted_children(x).len() ==> m.tree().parent(#[trigger] m.sorted_children(x)[i]) == Some(x),
{
    let n = m.ids.len();
    m.lemma_keyed_children(x, n);
    lemma_children_lower(m.tree(), h, b, x, n);
    let k = m.keyed_upto(x, n);
    lemma_isort_perm(k);
    assert forall|i: int| 0 <= i < m.sorted_children(x).len() implies m.tree().parent(#[trigger] m.sorted_children(x)[i]) == Some(x) by {
        lemma_isort_contains(k, i);
        let t = isort(k)[i];
        let j = choose|j: int| 0 <= j < k.len() && k[j] == t;
        assert(k.map_values(|t: (EntityId, i32, usize)| t.0)[j] == t.0);
        assert(m.tree().children_upto(x, n)[j] == t.0);
    }
}

proof fn lemma_subtree_parents_first(m: ZModel, h: Map<EntityId, nat>, b: nat, x: EntityId)
    requires
        m.tree().shape_wf(),
        valid_heights(m.tree(), h, b),
    ensures
        parents_first(m.tree(), subtree_order(m, h, b, x), x),
    decreases level(m.tree(), h, b, x), 1nat, 0nat,
{
    m.lemma_sorted_children_lower(h, b, x);
    lemma_sorted_children_parent(m, h, b, x);
    lemma_forest_parents_first(m, h, b, level(m.tree(), h, b, x), m.sorted_children(x), x);
}

proof fn lemma_forest_parents_first(m: ZModel, h: Map<EntityId, nat>, b: nat, bound: nat, cs: Seq<EntityId>, x: EntityId)
    requires
        m.tree().shape_wf(),
        valid_heights(m.tree(), h, b),
        forall|i: int| 0 <= i < cs.len() ==> level(m.tree(), h, b, #[trigger] cs[i]) < bound,
        forall|i: int| 0 <= i < cs.len() ==> m.tree().parent(#[trigger] cs[i]) == Some(x),
    ensures
        parents_first(m.tree(), forest_order(m, h, b, bound, cs), x),
    decreases bound, 0nat, cs.len(),
{
    if cs.len() > 0 {
        let init = cs.drop_last();
        let c = cs.last();
        assert(level(m.tree(), h, b, cs[cs.len() - 1]) < bound);
        assert(m.tree().parent(cs[cs.len() - 1]) == Some(x));
        assert forall|i: int| 0 <= i < init.len() implies level(m.tree(), h, b, #[trigger] init[i]) < bound
            && m.tree().parent(init[i]) == Some(x) by {
            assert(init[i] == cs[i]);
        }
        lemma_forest_parents_first(m, h, b, bound, init, x);
        lemma_subtree_parents_first(m, h, b, c);
        let a = forest_order(m, h, b, bound, init);
        let s = subtree_order(m, h, b, c);
        let o = forest_order(m, h, b, bound, cs);
        assert(o == a + seq![c] + s);
        let t = m.tree();
        assert forall|i: int| 0 <= i < o.len() implies t.parent(#[trigger] o[i]) == Some(x) || exists|j: int|
            0 <= j < i && t.parent(o[i]) == Some(o[j]) by {
            if i < a.len() {
                assert(o[i] == a[i]);
                if t.parent(a[i]) != Some(x) {
                    let jj = choose|jj: int| 0 <= jj < i && t.parent(a[i]) == Some(a[jj]);
                    assert(o[jj] == a[jj]);
                }
            } else if i == a.len() {
                assert(o[i] == c);
            } else {
                let k = i - a.len() - 1;
                assert(o[i] == s[k]);
                assert(o[a.len() as int] == c);
                if t.parent(s[k]) != Some(c) {
                    let jj = choose|jj: int| 0 <= jj < k && t.parent(s[k]) == Some(s[jj]);
                    assert(o[a.len() + 1 + jj] == s[jj]);
                }
            }
        }
    }
}

/// Every entry after the first hangs below an entry that comes earlier.
pub open spec fn parent_drawn_earlier(t: ZTree, order: Seq<EntityId>) -> bool {
    forall|i: int| 1 <= i < order.len() ==> exists|j: int| 0 <= j < i && t.parent(#[trigger] order[i]) == Some(order[j])
}

/// In the render order every component comes after the component it was
/// registered under: the root first, then each other entry below an
/// entry drawn earlier.
pub proof fn law_parent_drawn_before_child(z: ZIndexManager, root: EntityId)
    requires
        z.wf(),
    ensures
        parent_drawn_earlier(z@.tree(), seq![root] + subtree_order(z@, z.heights(), z.bound(), root)),
{
    let s = subtree_order(z@, z.heights(), z.bound(), root);
    let order = seq![root] + s;
    lemma_subtree_parents_first(z@, z.heights(), z.bound(), root);
    assert forall|i: int| 1 <= i < order.len() implies exists|j: int| 0 <= j < i && z@.tree().parent(#[trigger] order[i]) == Some(order[j]) by {
        let k = i - 1;
        assert(order[i] == s[k]);
        assert(order[0] == root);
        if z@.tree().parent(s[k]) != Some(root) {
            let jj = choose|jj: int| 0 <= jj < k && z@.tree().parent(s[k]) == Some(s[jj]);
            assert(order[jj + 1] == s[jj]);
        }
    }
    assert(parent_drawn_earlier(z@.tree(), order));
}

/// Everything in `a` is in `b`.
pub open spec fn within(a: Seq<EntityId>, b: Seq<EntityId>) -> bool {
    forall|e: EntityId| #[trigger] a.contains(e) ==> b.contains(e)
}

/// Each tree of a forest appears in the forest's order: its root, and
/// everything in its own order.
proof fn lemma_forest_covers(m: ZModel, h: Map<EntityId, nat>, b: nat, bound: nat, cs: Seq<EntityId>, i: int)
    requires
        forall|j: int| 0 <= j < cs.len() ==> level(m.tree(), h, b, #[trigger] cs[j]) < bound,
        0 <= i < cs.len(),
    ensures
        forest_order(m, h, b, bound, cs).contains(cs[i]),
        within(subtree_order(m, h, b, cs[i]), forest_order(m, h, b, bound, cs)),
    decreases cs.len(),
{
    let init = cs.drop_last();
    let c = cs.last();
    assert forall|j: int| 0 <= j < init.len() implies level(m.tree(), h, b, #[trigger] init[j]) < bound by {
        assert(init[j] == cs[j]);
    }
    assert(level(m.tree(), h, b, cs[cs.len() - 1]) < bound);
    let a = forest_order(m, h, b, bound, init);
    let s = subtree_order(m, h, b, c);
    let o = forest_order(m, h, b, bound, cs);
    assert(o == a + seq![c] + s);
    if i == cs.len() - 1 {
        assert(o[a.len() as int] == c);
        assert forall|e: EntityId| #[trigger] s.contains(e) implies o.contains(e) by {
            let k = choose|k: int| 0 <= k < s.len() && s[k] == e;
            assert(o[a.len() + 1 + k] == e);
        }
    } else {
        lemma_forest_covers(m, h, b, bound, init, i);
        assert(init[i] == cs[i]);
        assert forall|e: EntityId| #[trigger] a.contains(e) implies o.contains(e) by {
            let k = choose|k: int| 0 <= k < a.len() && a[k] == e;
            assert(o[k] == e);
        }
    }
}

/// What a forest's order holds is a root of the forest or lies in one of its trees.
proof fn lemma_forest_members(m: ZModel, h: Map<EntityId, nat>, b: nat, bound: nat, cs: Seq<EntityId>, e: EntityId)
    requires
        forall|j: int| 0 <= j < cs.len() ==> level(m.tree(), h, b, #[trigger] cs[j]) < bound,
        forest_order(m, h, b, bound, cs).contains(e),
    ensures
        exists|i: int| #![trigger cs[i]] 0 <= i < cs.len() && (cs[i] == e || subtree_order(m, h, b, cs[i]).contains(e)),
    decreases cs.len(),
{
    let init = cs.drop_last();
    let c = cs.last();
    assert forall|j: int| 0 <= j < init.len() implies level(m.tree(), h, b, #[trigger] init[j]) < bound by {
        assert(init[j] == cs[j]);
    }
    assert(level(m.tree(), h, b, cs[cs.len() - 1]) < bound);
    let a = forest_order(m, h, b, bound, init);
    let s = subtree_order(m, h, b, c);
    let o = forest_order(m, h, b, bound, cs);
    assert(o == a + seq![c] + s);
    let k = choose|k: int| 0 <= k < o.len() && o[k] == e;
    if k < a.len() {
        assert(a[k] == e);
        lemma_forest_members(m, h, b, bound, init, e);
        let i = choose|i: int| #![trigger init[i]] 0 <= i < init.len() && (init[i] == e || subtree_order(m, h, b, init[i]).contains(e));
        assert(cs[i] == init[i]);
    } else if k == a.len() {
        assert(cs[cs.len() - 1] == e);
    } else {
        assert(s[k - a.len() - 1] == e);
        assert(subtree_order(m, h, b, cs[cs.len() - 1]).contains(e));
    }
}

/// The order below anything in `x`'s order lies within `x`'s order.
proof fn lemma_subtree_closed(m: ZModel, h: Map<EntityId, nat>, b: nat, x: EntityId, z: EntityId)
    requires
        m.tree().shape_wf(),
        valid_heights(m.tree(), h, b),
        subtree_order(m, h, b, x).contains(z),
    ensures
        within(subtree_order(m, h, b, z), subtree_order(m, h, b, x)),
    decreases level(m.tree(), h, b, x),
{
    let cs = m.sorted_children(x);
    let bound = level(m.tree(), h, b, x);
    m.lemma_sorted_children_lower(h, b, x);
    lemma_forest_members(m, h, b, bound, cs, z);
    let i = choose|i: int| #![trigger cs[i]] 0 <= i < cs.len() && (cs[i] == z || subtree_order(m, h, b, cs[i]).contains(z));
    lemma_forest_covers(m, h, b, bound, cs, i);
    if cs[i] != z {
        lemma_subtree_closed(m, h, b, cs[i], z);
        assert forall|e: EntityId| #[trigger] subtree_order(m, h, b, z).contains(e) implies subtree_order(m, h, b, x).contains(e) by {
            assert(subtree_order(m, h, b, cs[i]).contains(e));
        }
    }
}

impl ZModel {
    /// A registered child appears among the keyed children of its parent.
    proof fn lemma_keyed_has_child(self, x: EntityId, n: nat, i: int)
        requires
            n <= self.ids.len(),
            self.ids.len() == self.parents.len(),
            0 <= i < n,
            self.parents[i] == Some(x),
        ensures
            self.keyed_upto(x, n).contains((self.ids[i], self.zkey(self.ids[i]), i as usize)),
        decreases n,
    {
        let k = self.keyed_upto(x, n);
        if i == n - 1 {
            assert(k[k.len() - 1] == (self.ids[i], self.zkey(self.ids[i]), i as usize));
        } else {
            self.lemma_keyed_has_child(x, (n - 1) as nat, i);
            let prev = self.keyed_upto(x, (n - 1) as nat);
            let j = choose|j: int| 0 <= j < prev.len() && prev[j] == (self.ids[i], self.zkey(self.ids[i]), i as usize);
            assert(k[j] == prev[j]);
        }
    }

    /// A registered component appears among the drawing-ordered children of its parent.
    proof fn lemma_child_in_sorted(self, x: EntityId, c: EntityId)
        requires
            self.tree().shape_wf(),
            self.tree().parent(c) == Some(x),
        ensures
            self.sorted_children(x).contains(c),
    {
        broadcast use vstd::multiset::group_multiset_axioms;
        lemma_pos_in(self.ids, c);
        let i = self.tree().pos(c);
        let n = self.ids.len();
        let t = (c, self.zkey(c), i as usize);
        self.lemma_keyed_has_child(x, n, i);
        let k = self.keyed_upto(x, n);
        lemma_isort_perm(k);
        vstd::seq_lib::to_multiset_contains(k, t);
        let r = isort(k);
        vstd::seq_lib::to_multiset_contains(r, t);
        let j = choose|j: int| 0 <= j < r.len() && r[j] == t;
        assert(self.sorted_children(x)[j] == c);
    }
}

/// The parent of `y` is `k - 1` steps below where `k` steps from `y` lead.
proof fn lemma_ancestor_shift(t: ZTree, y: EntityId, k: nat)
    requires
        k >= 1,
        t.ancestor(y, k) is Some,
    ensures
        t.parent(y) is Some,
        t.ancestor(t.parent(y).unwrap(), (k - 1) as nat) == t.ancestor(y, k),
    decreases k,
{
    if k > 1 {
        assert(t.ancestor(y, (k - 1) as nat) is Some);
        lemma_ancestor_shift(t, y, (k - 1) as nat);
    }
}

proof fn lemma_descendant_in_subtree(m: ZModel, h: Map<EntityId, nat>, b: nat, x: EntityId, y: EntityId, k: nat)
    requires
        m.tree().shape_wf(),
        valid_heights(m.tree(), h, b),
        k >= 1,
        m.tree().ancestor(y, k) == Some(x),
    ensures
        subtree_order(m, h, b, x).contains(y),
    decreases k,
{
    let t = m.tree();
    lemma_ancestor_shift(t, y, k);
    let p = t.parent(y).unwrap();
    m.lemma_child_in_sorted(p, y);
    let cs = m.sorted_children(p);
    let i = choose|i: int| 0 <= i < cs.len() && cs[i] == y;
    m.lemma_sorted_children_lower(h, b, p);
    lemma_forest_covers(m, h, b, level(t, h, b, p), cs, i);
    if k > 1 {
        lemma_descendant_in_subtree(m, h, b, x, p, (k - 1) as nat);
        lemma_subtree_closed(m, h, b, x, p);
    }
}

/// The render order leaves nothing out: every component whose chain of
/// parents reaches the root is drawn.
pub proof fn law_render_order_complete(z: ZIndexManager, root: EntityId, y: EntityId)
    requires
        z.wf(),
        z@.tree().chain_hits(y, root),
    ensures
        (seq![root] + subtree_order(z@, z.heights(), z.bound(), root)).contains(y),
{
    let order = seq![root] + subtree_order(z@, z.heights(), z.bound(), root);
    let k = choose|k: nat| #[trigger] z@.tree().ancestor(y, k) == Some(root);
    if k == 0 {
        assert(order[0] == y);
    } else {
        lemma_descendant_in_subtree(z@, z.heights(), z.bound(), root, y, k);
        let s = subtree_order(z@, z.heights(), z.bound(), root);
        let j = choose|j: int| 0 <= j < s.len() && s[j] == y;
        assert(order[j + 1] == y);
    }
}

/// Walking `k + j` steps up from `e` is walking `j` steps up from where `k` steps led.
proof fn lemma_ancestor_add(t: ZTree, e: EntityId, k: nat, j: nat, y: EntityId)
    requires
        t.ancestor(e, k) == Some(y),
    ensures
        t.ancestor(e, k + j) == t.ancestor(y, j),
    decreases j,
{
    if j > 0 {
        lemma_ancestor_add(t, e, k, (j - 1) as nat, y);
        assert(t.ancestor(e, k + j) == match t.ancestor(e, (k + j - 1) as nat) {
            Some(z) => t.parent(z),
            None => None,
        });
    }
}

/// Everything in `x`'s order lies strictly below `x`.
proof fn lemma_members_descend(m: ZModel, h: Map<EntityId, nat>, b: nat, x: EntityId, e: EntityId)
    requires
        m.tree().shape_wf(),
        valid_heights(m.tree(), h, b),
        subtree_order(m, h, b, x).contains(e),
    ensures
        exists|k: nat| k >= 1 && #[trigger] m.tree().ancestor(e, k) == Some(x),
    decreases level(m.tree(), h, b, x),
{
    let t = m.tree();
    let cs = m.sorted_children(x);
    let bound = level(t, h, b, x);
    m.lemma_sorted_children_lower(h, b, x);
    lemma_sorted_children_parent(m, h, b, x);
    lemma_forest_members(m, h, b, bound, cs, e);
    let i = choose|i: int| #![trigger cs[i]] 0 <= i < cs.len() && (cs[i] == e || subtree_order(m, h, b, cs[i]).contains(e));
    if cs[i] == e {
        assert(t.ancestor(e, 0) == Some(e));
        assert(t.ancestor(e, 1) == Some(x));
    } else {
        lemma_members_descend(m, h, b, cs[i], e);
        let k = choose|k: nat| k >= 1 && #[trigger] t.ancestor(e, k) == Some(cs[i]);
        lemma_ancestor_add(t, e, k, 1, cs[i]);
        assert(t.ancestor(cs[i], 0) == Some(cs[i]));
        assert(t.ancestor(e, k + 1) == Some(x));
    }
}

/// Siblings in drawing order are distinct.
proof fn lemma_sorted_children_distinct(m: ZModel, x: EntityId)
    requires
        m.tree().shape_wf(),
    ensures
        m.sorted_children(x).no_duplicates(),
{
    let k = m.keyed_upto(x, m.ids.len());
    let r = isort(k);
    m.lemma_keyed_positions(x, m.ids.len());
    lemma_isort_perm(k);
    assert(k.no_duplicates()) by {
        assert forall|p: int, q: int| 0 <= p < k.len() && 0 <= q < k.len() && p != q implies k[p] != k[q] by {
            if p < q {
                assert(k[p].2 < k[q].2);
            } else {
                assert(k[q].2 < k[p].2);
            }
        }
    }
    lemma_isort_no_dups(k);
    let sc = m.sorted_children(x);
    assert forall|i: int, j: int| 0 <= i < sc.len() && 0 <= j < sc.len() && i != j implies sc[i] != sc[j] by {
        lemma_isort_contains(k, i);
        lemma_isort_contains(k, j);
        let ii = choose|ii: int| 0 <= ii < k.len() && k[ii] == r[i];
        let jj = choose|jj: int| 0 <= jj < k.len() && k[jj] == r[j];
        if r[i].0 == r[j].0 {
            assert(r[i] == r[j]);
        }
    }
}

/// The concatenation of two sequences without repeats that share nothing
/// has no repeats.
proof fn lemma_concat_distinct(a: Seq<EntityId>, c: Seq<EntityId>)
    requires
        a.no_duplicates(),
        c.no_duplicates(),
        forall|e: EntityId| #[trigger] a.contains(e) ==> !c.contains(e),
    ensures
        (a + c).no_duplicates(),
{
    let o = a + c;
    assert forall|i: int, j: int| 0 <= i < o.len() && 0 <= j < o.len() && i != j implies o[i] != o[j] by {
        if i < a.len() && j >= a.len() {
            assert(a.contains(o[i]));
            assert(c[j - a.len()] == o[j]);
        } else if j < a.len() && i >= a.len() {
            assert(a.contains(o[j]));
            assert(c[i - a.len()] == o[i]);
        }
    }
}

/// A component never lies strictly below itself.
proof fn lemma_not_below_self(t: ZTree, h: Map<EntityId, nat>, b: nat, x: EntityId, d: nat)
    requires
        t.shape_wf(),
        valid_heights(t, h, b),
        d >= 1,
    ensures
        t.ancestor(x, d) != Some(x),
{
    if t.ancestor(x, d) is Some {
        lemma_ancestors_higher(t, h, b, x, d);
    }
}

/// Two components reached from `e` that share a parent are the same, or
/// the parent would lie below itself.
proof fn lemma_common_parent(t: ZTree, h: Map<EntityId, nat>, b: nat, e: EntityId, k1: nat, k2: nat, c1: EntityId, c2: EntityId, x: EntityId)
    requires
        t.shape_wf(),
        valid_heights(t, h, b),
        t.ancestor(e, k1) == Some(c1),
        t.ancestor(e, k2) == Some(c2),
        t.parent(c1) == Some(x),
        t.parent(c2) == Some(x),
    ensures
        c1 == c2,
{
    assert(t.ancestor(c1, 0) == Some(c1));
    assert(t.ancestor(c2, 0) == Some(c2));
    lemma_ancestor_add(t, e, k1, 1, c1);
    lemma_ancestor_add(t, e, k2, 1, c2);
    if k1 < k2 {
        lemma_ancestor_add(t, e, k1 + 1, (k2 - k1) as nat, x);
        lemma_not_below_self(t, h, b, x, (k2 - k1) as nat);
    } else if k2 < k1 {
        lemma_ancestor_add(t, e, k2 + 1, (k1 - k2) as nat, x);
        lemma_not_below_self(t, h, b, x, (k1 - k2) as nat);
    }
}

proof fn lemma_subtree_distinct(m: ZModel, h: Map<EntityId, nat>, b: nat, x: EntityId)
    requires
        m.tree().shape_wf(),
        valid_heights(m.tree(), h, b),
    ensures
        subtree_order(m, h, b, x).no_duplicates(),
    decreases level(m.tree(), h, b, x), 1nat, 0nat,
{
    m.lemma_sorted_children_lower(h, b, x);
    lemma_sorted_children_parent(m, h, b, x);
    lemma_sorted_children_distinct(m, x);
    lemma_forest_distinct(m, h, b, level(m.tree(), h, b, x), m.sorted_children(x), x);
}

proof fn lemma_forest_distinct(m: ZModel, h: Map<EntityId, nat>, b: nat, bound: nat, cs: Seq<EntityId>, x: EntityId)
    requires
        m.tree().shape_wf(),
        valid_heights(m.tree(), h, b),
        cs.no_duplicates(),
        forall|i: int| 0 <= i < cs.len() ==> level(m.tree(), h, b, #[trigger] cs[i]) < bound,
        forall|i: int| 0 <= i < cs.len() ==> m.tree().parent(#[trigger] cs[i]) == Some(x),
    ensures
        forest_order(m, h, b, bound, cs).no_duplicates(),
    decreases bound, 0nat, cs.len(),
{
    if cs.len() > 0 {
        let t = m.tree();
        let init = cs.drop_last();
        let c = cs.last();
        assert(level(t, h, b, cs[cs.len() - 1]) < bound);
        assert(t.parent(cs[cs.len() - 1]) == Some(x));
        assert forall|i: int| 0 <= i < init.len() implies level(t, h, b, #[trigger] init[i]) < bound
            && t.parent(init[i]) == Some(x) by {
            assert(init[i] == cs[i]);
        }
        assert(init.no_duplicates()) by {
            assert forall|i: int, j: int| 0 <= i < init.len() && 0 <= j < init.len() && i != j implies init[i] != init[j] by {
                assert(init[i] == cs[i] && init[j] == cs[j]);
            }
        }
        lemma_forest_distinct(m, h, b, bound, init, x);
        lemma_subtree_distinct(m, h, b, c);
        let a = forest_order(m, h, b, bound, init);
        let s = subtree_order(m, h, b, c);
        let tail = seq![c] + s;
        assert(forest_order(m, h, b, bound, cs) == a + tail);
        assert(!s.contains(c)) by {
            if s.contains(c) {
                lemma_members_descend(m, h, b, c, c);
                let k = choose|k: nat| k >= 1 && #[trigger] t.ancestor(c, k) == Some(c);
                lemma_not_below_self(t, h, b, c, k);
            }
        }
        assert(tail.no_duplicates()) by {
            assert forall|i: int, j: int| 0 <= i < tail.len() && 0 <= j < tail.len() && i != j implies tail[i] != tail[j] by {
                if i == 0 {
                    assert(s[j - 1] == tail[j]);
                } else if j == 0 {
                    assert(s[i - 1] == tail[i]);
                } else {
                    assert(s[i - 1] == tail[i] && s[j - 1] == tail[j]);
                }
            }
        }
        assert forall|e: EntityId| #[trigger] a.contains(e) implies !tail.contains(e) by {
            if tail.contains(e) {
                lemma_forest_members(m, h, b, bound, init, e);
                let i = choose|i: int| #![trigger init[i]] 0 <= i < init.len() && (init[i] == e || subtree_order(m, h, b, init[i]).contains(e));
                let k1: nat = if init[i] == e {
                    0
                } else {
                    lemma_members_descend(m, h, b, init[i], e);
                    choose|k: nat| k >= 1 && #[trigger] t.ancestor(e, k) == Some(init[i])
                };
                assert(t.ancestor(e, k1) == Some(init[i]));
                let j = choose|j: int| 0 <= j < tail.len() && tail[j] == e;
                let k2: nat = if j == 0 {
                    0
                } else {
                    assert(s[j - 1] == e);
                    lemma_members_descend(m, h, b, c, e);
                    choose|k: nat| k >= 1 && #[trigger] t.ancestor(e, k) == Some(c)
                };
                assert(t.ancestor(e, k2) == Some(c));
                lemma_common_parent(t, h, b, e, k1, k2, init[i], c, x);
                assert(cs[i] == init[i]);
                assert(cs[cs.len() - 1] == c);
            }
        }
        lemma_concat_distinct(a, tail);
    }
}

/// The render order draws nothing twice.
pub proof fn law_render_order_distinct(z: ZIndexManager, root: EntityId)
    requires
        z.wf(),
    ensures
        (seq![root] + subtree_order(z@, z.heights(), z.bound(), root)).no_duplicates(),
{
    let t = z@.tree();
    let s = subtree_order(z@, z.heights(), z.bound(), root);
    lemma_subtree_distinct(z@, z.heights(), z.bound(), root);
    assert forall|e: EntityId| #[trigger] seq![root].contains(e) implies !s.contains(e) by {
        assert(seq![root][0] == root);
        if s.contains(e) {
            lemma_members_descend(z@, z.heights(), z.bound(), root, e);
            let k = choose|k: nat| k >= 1 && #[trigger] t.ancestor(e, k) == Some(root);
            lemma_not_below_self(t, z.heights(), z.bound(), root, k);
        }
    }
    assert(seq![root].no_duplicates());
    lemma_concat_distinct(seq![root], s);
}

/// Walking up from `x`, every ancestor found sits strictly higher than `x`.
proof fn lemma_ancestors_higher(m: ZTree, h: Map<EntityId, nat>, b: nat, x: EntityId, k: nat)
    requires
        m.shape_wf(),
        valid_heights(m, h, b),
        k >= 1,
        m.ancestor(x, k) is Some,
    ensures
        level(m, h, b, m.ancestor(x, k).unwrap()) > level(m, h, b, x),
    decreases k,
{
    if k == 1 {
        lemma_parent_higher(m, h, b, x);
    } else {
        lemma_ancestors_higher(m, h, b, x, (k - 1) as nat);
        let z = m.ancestor(x, (k - 1) as nat).unwrap();
        lemma_parent_higher(m, h, b, z);
    }
}

/// The component hierarchy has no cycle: walking up the parents from any
/// component never leads back to it.
pub proof fn law_hierarchy_acyclic(z: ZIndexManager, x: EntityId, k: nat)
    requires
        z.wf(),
        k >= 1,
    ensures
        z@.tree().ancestor(x, k) != Some(x),
{
    if z@.tree().ancestor(x, k) is Some {
        lemma_ancestors_higher(z@.tree(), z.heights@, z.height_bound@, x, k);
    }
}

/// Each tree in a forest whose computation fits, fits on its own.
proof fn lemma_zforest_fits_each(m: ZTree, h: Map<EntityId, nat>, b: nat, bound: nat, cs: Seq<EntityId>, d: int)
    requires
        forall|i: int| 0 <= i < cs.len() ==> level(m, h, b, #[trigger] cs[i]) < bound,
        zforest_fits(m, h, b, bound, cs, d),
    ensures
        forall|i: int| 0 <= i < cs.len() ==> z_fits(m, h, b, #[trigger] cs[i], d),
    decreases cs.len(),
{
    if cs.len() > 0 {
        let init = cs.drop_last();
        assert forall|i: int| 0 <= i < init.len() implies level(m, h, b, #[trigger] init[i]) < bound by {
            assert(init[i] == cs[i]);
        }
        lemma_zforest_fits_each(m, h, b, bound, init, d);
        assert forall|i: int| 0 <= i < cs.len() implies z_fits(m, h, b, #[trigger] cs[i], d) by {
            if i < init.len() {
                assert(init[i] == cs[i]);
            }
        }
    }
}

/// Once the walk up from `x` has ended, it stays ended.
proof fn lemma_ancestor_none_after(m: ZTree, x: EntityId, k: nat, j: nat)
    requires
        m.ancestor(x, k) is None,
        j >= k,
    ensures
        m.ancestor(x, j) is None,
    decreases j - k,
{
    if j > k {
        lemma_ancestor_none_after(m, x, k, (j - 1) as nat);
    }
}

/// Nothing sits above the bound.
proof fn lemma_level_bounded(m: ZTree, h: Map<EntityId, nat>, b: nat, x: EntityId)
    requires
        valid_heights(m, h, b),
    ensures
        level(m, h, b, x) <= b,
        m.registered(x) ==> h.contains_key(x) && h[x] < b,
{
    if m.registered(x) {
        lemma_pos_in(m.ids, x);
        let i = m.pos(x);
        assert(h.contains_key(m.ids[i]));
    }
}

/// A registered component's parent sits strictly higher.
proof fn lemma_parent_higher(m: ZTree, h: Map<EntityId, nat>, b: nat, x: EntityId)
    requires
        m.shape_wf(),
        valid_heights(m, h, b),
        m.parent(x) is Some,
    ensures
        m.registered(x),
        level(m, h, b, m.parent(x).unwrap()) > level(m, h, b, x),
{
    lemma_pos_in(m.ids, x);
    let i = m.pos(x);
    assert(m.ids[i] == x);
    assert(h.contains_key(m.ids[i]) && h[m.ids[i]] < b);
    assert(m.parents[i] is Some);
}

fn contains_id(v: &Vec<EntityId>, x: EntityId) -> (r: bool)
    ensures
        r == v@.contains(x),
{
    let mut i: usize = 0;
    while i < v.len()
        invariant
            i <= v@.len(),
            forall|j: int| 0 <= j < i ==> v@[j] != x,
        decreases v@.len() - i,
    {
        if v[i] == x {
            assert(v@[i as int] == x);
            return true;
        }
        i += 1;
    }
    false
}

} // verus!