//! Construction of the bounding-volume hierarchy over the scene's elements.
//!
//! The construction reads one thing of each element: where the minimum corner
//! of its bounding box lies along each axis, compared in the floating-point
//! total order. An element enters as its index in the scene together with a
//! `BoundKey`, three integers that compare as those coordinates do.
use vstd::prelude::*;
use vstd::multiset::Multiset;
use rand_pcg::Mcg128Xsl64;
use crate::random::gen_range_u8;

verus! {

/// Integer keys of an element's bounding-box minimum along x, y and z, ordered
/// as the coordinates are in the floating-point total order.
#[derive(Clone, Copy, Debug, PartialEq, Eq, Structural)]
pub struct BoundKey {
    pub x: i64,
    pub y: i64,
    pub z: i64,
}

/// The key along axis 0 (x), 1 (y) or 2 (z).
pub open spec fn key_on(k: BoundKey, axis: u8) -> i64 {
    if axis == 0 {
        k.x
    } else if axis == 1 {
        k.y
    } else {
        k.z
    }
}

impl BoundKey {
    /// The key along axis 0 (x), 1 (y) or 2 (z).
    pub fn along(&self, axis: u8) -> (r: i64)
        ensures
            r == key_on(*self, axis),
    {
        if axis == 0 {
            self.x
        } else if axis == 1 {
            self.y
        } else {
            self.z
        }
    }
}

/// A scene element as the construction sees it: its index and its key.
pub type Element = (usize, BoundKey);

/// A node of the hierarchy. Each node holds two children and the axis its
/// elements were ordered on. A node built from one or two elements holds the
/// elements themselves (the same one twice when there is one); a larger node
/// holds two nodes.
#[derive(Debug)]
pub enum BVH {
    Pair { axis: u8, left_item: usize, right_item: usize },
    Split { axis: u8, left: Box<BVH>, right: Box<BVH> },
}

/// `s` with `x` placed after every element whose key on `axis` is at least
/// that of `x`: one step of a stable sort, largest key first.
pub open spec fn insert_desc(s: Seq<Element>, x: Element, axis: u8) -> Seq<Element>
    decreases s.len(),
{
    if s.len() == 0 {
        seq![x]
    } else if key_on(s[0].1, axis) >= key_on(x.1, axis) {
        seq![s[0]] + insert_desc(s.drop_first(), x, axis)
    } else {
        seq![x] + s
    }
}

/// The elements sorted by key on `axis`, largest first, elements with equal
/// keys kept in their order.
pub open spec fn sort_desc(s: Seq<Element>, axis: u8) -> Seq<Element>
    decreases s.len(),
{
    if s.len() == 0 {
        Seq::empty()
    } else {
        insert_desc(sort_desc(s.drop_last(), axis), s.last(), axis)
    }
}

/// `t` is what the construction yields on `items`, for the axes that `t` records.
pub open spec fn built_from(t: BVH, items: Seq<Element>) -> bool
    decreases t,
{
    match t {
        BVH::Pair { axis, left_item, right_item } => {
            &&& axis < 3
            &&& (items.len() == 1 && left_item == items[0].0 && right_item == items[0].0) || (
            items.len() == 2 && if key_on(items[1].1, axis) < key_on(items[0].1, axis) {
                left_item == items[0].0 && right_item == items[1].0
            } else {
                left_item == items[1].0 && right_item == items[0].0
            })
        },
        BVH::Split { axis, left, right } => {
            let sorted = sort_desc(items, axis);
            let mid = items.len() / 2;
            &&& axis < 3
            &&& items.len() > 2
            &&& built_from(*left, sorted.subrange(0, mid as int))
            &&& built_from(*right, sorted.subrange(mid as int, items.len() as int))
        },
    }
}

/// `insert_desc` adds `x` to the elements and drops none.
proof fn lemma_insert_desc_perm(s: Seq<Element>, x: Element, axis: u8)
    ensures
        insert_desc(s, x, axis).to_multiset() == s.to_multiset().insert(x),
        insert_desc(s, x, axis).len() == s.len() + 1,
    decreases s.len(),
{
    broadcast use vstd::multiset::group_multiset_axioms;
    broadcast use vstd::seq_lib::lemma_multiset_commutative;
    broadcast use vstd::seq_lib::to_multiset_build;
    broadcast use vstd::seq_lib::to_multiset_len;
    broadcast use vstd::multiset::lemma_multiset_empty_len;

    let e = Seq::<Element>::empty();
    assert(e.to_multiset().len() == 0);
    assert(e.to_multiset() =~= Multiset::empty());
    assert(seq![x] =~= e.push(x));
    assert(seq![x].to_multiset() == e.to_multiset().insert(x));
    if s.len() == 0 {
        assert(s =~= e);
        assert(insert_desc(s, x, axis) == seq![x]);
    } else {
        let rest = s.drop_first();
        assert(s =~= seq![s[0]] + rest);
        assert(seq![s[0]] =~= e.push(s[0]));
        assert(seq![s[0]].to_multiset() == e.to_multiset().insert(s[0]));
        assert(s.to_multiset() == seq![s[0]].to_multiset().add(rest.to_multiset()));
        if key_on(s[0].1, axis) >= key_on(x.1, axis) {
            lemma_insert_desc_perm(rest, x, axis);
            assert(insert_desc(s, x, axis) == seq![s[0]] + insert_desc(rest, x, axis));
            assert(insert_desc(s, x, axis).to_multiset() =~= s.to_multiset().insert(x));
        } else {
            assert(insert_desc(s, x, axis) == seq![x] + s);
            assert(insert_desc(s, x, axis).to_multiset() =~= s.to_multiset().insert(x));
        }
    }
}

/// Sorting keeps exactly the elements it was given.
pub proof fn lemma_sort_desc_perm(s: Seq<Element>, axis: u8)
    ensures
        sort_desc(s, axis).to_multiset() == s.to_multiset(),
        sort_desc(s, axis).len() == s.len(),
    decreases s.len(),
{
    broadcast use vstd::seq_lib::to_multiset_build;

    if s.len() == 0 {
        assert(s =~= Seq::<Element>::empty());
    } else {
        assert(sort_desc(s, axis) == insert_desc(sort_desc(s.drop_last(), axis), s.last(), axis));
        lemma_sort_desc_perm(s.drop_last(), axis);
        lemma_insert_desc_perm(sort_desc(s.drop_last(), axis), s.last(), axis);
        assert(s.drop_last().push(s.last()) =~= s);
        assert(s.drop_last().push(s.last()).to_multiset()
            == s.drop_last().to_multiset().insert(s.last()));
    }
}

/// The elements are in order of key on `axis`, largest first.
pub open spec fn is_desc(s: Seq<Element>, axis: u8) -> bool {
    forall|i: int, j: int| 0 <= i < j < s.len() ==> key_on(#[trigger] s[i].1, axis) >= key_on(#[trigger] s[j].1, axis)
}

/// Inserting into an ordered sequence keeps it ordered.
proof fn lemma_insert_desc_sorted(s: Seq<Element>, x: Element, axis: u8)
    requires
        is_desc(s, axis),
    ensures
        is_desc(insert_desc(s, x, axis), axis),
    decreases s.len(),
{
    if s.len() > 0 {
        let rest = s.drop_first();
        if key_on(s[0].1, axis) >= key_on(x.1, axis) {
            assert(is_desc(rest, axis)) by {
                assert forall|i: int, j: int| 0 <= i < j < rest.len() implies key_on(#[trigger] rest[i].1, axis)
                    >= key_on(#[trigger] rest[j].1, axis) by {
                    assert(rest[i] == s[i + 1] && rest[j] == s[j + 1]);
                }
            }
            lemma_insert_desc_sorted(rest, x, axis);
            lemma_insert_desc_perm(rest, x, axis);
            let tail = insert_desc(rest, x, axis);
            let r = seq![s[0]] + tail;
            assert forall|j: int| 0 <= j < tail.len() implies key_on(s[0].1, axis) >= key_on(#[trigger] tail[j].1, axis) by {
                vstd::seq_lib::to_multiset_contains(tail, tail[j]);
                vstd::seq_lib::to_multiset_contains(rest, tail[j]);
                assert(tail.contains(tail[j]));
                assert(tail.to_multiset().count(tail[j]) > 0);
                if tail[j] != x {
                    assert(rest.to_multiset().insert(x).count(tail[j]) == rest.to_multiset().count(tail[j]));
                    let k = choose|k: int| 0 <= k < rest.len() && rest[k] == tail[j];
                    assert(s[k + 1] == tail[j]);
                }
            }
            assert forall|i: int, j: int| 0 <= i < j < r.len() implies key_on(#[trigger] r[i].1, axis)
                >= key_on(#[trigger] r[j].1, axis) by {
                if i == 0 {
                    assert(r[j] == tail[j - 1]);
                } else {
                    assert(r[i] == tail[i - 1] && r[j] == tail[j - 1]);
                }
            }
        } else {
            let r = seq![x] + s;
            assert forall|i: int, j: int| 0 <= i < j < r.len() implies key_on(#[trigger] r[i].1, axis)
                >= key_on(#[trigger] r[j].1, axis) by {
                if i == 0 {
                    assert(r[j] == s[j - 1]);
                    assert(key_on(s[0].1, axis) >= key_on(s[j - 1].1, axis));
                } else {
                    assert(r[i] == s[i - 1] && r[j] == s[j - 1]);
                }
            }
        }
    }
}

/// The sort orders the elements by key on `axis`, largest first.
pub proof fn lemma_sort_desc_sorted(s: Seq<Element>, axis: u8)
    ensures
        is_desc(sort_desc(s, axis), axis),
    decreases s.len(),
{
    if s.len() > 0 {
        lemma_sort_desc_sorted(s.drop_last(), axis);
        lemma_insert_desc_sorted(sort_desc(s.drop_last(), axis), s.last(), axis);
    }
}

/// Placing `x` at the first position whose key is below that of `x` is `insert_desc`.
proof fn lemma_insert_at(s: Seq<Element>, x: Element, axis: u8, p: int)
    requires
        0 <= p <= s.len(),
        forall|q: int| 0 <= q < p ==> key_on(#[trigger] s[q].1, axis) >= key_on(x.1, axis),
        p < s.len() ==> key_on(s[p].1, axis) < key_on(x.1, axis),
    ensures
        insert_desc(s, x, axis) == s.insert(p, x),
    decreases s.len(),
{
    if s.len() == 0 {
        assert(s.insert(p, x) =~= seq![x]);
    } else if p == 0 {
        assert(s.insert(p, x) =~= seq![x] + s);
    } else {
        let rest = s.drop_first();
        assert forall|q: int| 0 <= q < p - 1 implies key_on(#[trigger] rest[q].1, axis) >= key_on(x.1, axis) by {
            assert(rest[q] == s[q + 1]);
        }
        lemma_insert_at(rest, x, axis, p - 1);
        assert(s.insert(p, x) =~= seq![s[0]] + rest.insert(p - 1, x));
    }
}

/// The elements sorted by key on `axis`, largest first; equal keys keep their order.
pub fn sort_by_axis(items: &Vec<Element>, axis: u8) -> (r: Vec<Element>)
    ensures
        r@ == sort_desc(items@, axis),
{
    let mut out: Vec<Element> = Vec::new();
    let mut i: usize = 0;
    assert(items@.subrange(0, 0) =~= Seq::<Element>::empty());
    while i < items.len()
        invariant
            i <= items@.len(),
            out@ == sort_desc(items@.subrange(0, i as int), axis),
        decreases items@.len() - i,
    {
        let x = items[i];
        let kx = x.1.along(axis);
        let mut p: usize = 0;
        while p < out.len() && out[p].1.along(axis) >= kx
            invariant
                p <= out@.len(),
                forall|q: int| 0 <= q < p ==> key_on(#[trigger] out@[q].1, axis) >= kx,
            decreases out@.len() - p,
        {
            p = p + 1;
        }
        proof {
            lemma_insert_at(out@, x, axis, p as int);
            assert(items@.subrange(0, i + 1).drop_last() =~= items@.subrange(0, i as int));
        }
        out.insert(p, x);
        i = i + 1;
    }
    assert(items@.subrange(0, i as int) =~= items@);
    out
}

/// Builds the hierarchy over `items`, drawing one axis per node from `rng`
/// before building the node's children, left first.
fn build(rng: &mut Mcg128Xsl64, items: Vec<Element>) -> (r: BVH)
    requires
        items@.len() >= 1,
    ensures
        built_from(r, items@),
    decreases items@.len(),
{
    let axis = gen_range_u8(rng, 0, 3);
    let n = items.len();
    if n == 1 {
        BVH::Pair { axis, left_item: items[0].0, right_item: items[0].0 }
    } else if n == 2 {
        if items[1].1.along(axis) < items[0].1.along(axis) {
            BVH::Pair { axis, left_item: items[0].0, right_item: items[1].0 }
        } else {
            BVH::Pair { axis, left_item: items[1].0, right_item: items[0].0 }
        }
    } else {
        let mut lower = sort_by_axis(&items, axis);
        proof {
            lemma_sort_desc_perm(items@, axis);
        }
        let upper = lower.split_off(n / 2);
        let left = build(rng, lower);
        let right = build(rng, upper);
        BVH::Split { axis, left: Box::new(left), right: Box::new(right) }
    }
}

/// The scene's elements with their indices: element `i` has key `keys[i]`.
pub open spec fn indexed(keys: Seq<BoundKey>) -> Seq<Element> {
    Seq::new(keys.len(), |i: int| (i as usize, keys[i]))
}

impl BVH {
    /// Builds the hierarchy over all elements of a scene, element `i` having
    /// key `keys[i]`. Each node draws its axis from `rng`, then builds its
    /// left child and then its right child.
    pub fn new(rng: &mut Mcg128Xsl64, keys: &Vec<BoundKey>) -> (r: BVH)
        requires
            keys@.len() >= 1,
        ensures
            built_from(r, indexed(keys@)),
            leaves(r) == Set::new(|i: usize| i < keys@.len()),
    {
        let mut items: Vec<Element> = Vec::new();
        let mut i: usize = 0;
        while i < keys.len()
            invariant
                i <= keys@.len(),
                items@ == indexed(keys@).subrange(0, i as int),
            decreases keys@.len() - i,
        {
            items.push((i, keys[i]));
            i = i + 1;
            assert(items@ =~= indexed(keys@).subrange(0, i as int));
        }
        assert(items@ =~= indexed(keys@));
        let t = build(rng, items);
        proof {
            lemma_built_leaves(t, indexed(keys@));
            let all = Set::new(|i: usize| i < keys@.len());
            assert forall|i: usize| all.contains(i) implies ids(indexed(keys@)).contains(i) by {
                assert(indexed(keys@)[i as int].0 == i);
            }
            assert(ids(indexed(keys@)) =~= all);
        }
        t
    }
}

/// The scene indices that the hierarchy's nodes hold.
pub open spec fn leaves(t: BVH) -> Set<usize>
    decreases t,
{
    match t {
        BVH::Pair { left_item, right_item, .. } => set![left_item, right_item],
        BVH::Split { left, right, .. } => leaves(*left).union(leaves(*right)),
    }
}

/// The scene indices of the elements.
pub open spec fn ids(items: Seq<Element>) -> Set<usize> {
    Set::new(|i: usize| exists|k: int| 0 <= k < items.len() && #[trigger] items[k].0 == i)
}

/// Elements that are a permutation of each other carry the same indices.
proof fn lemma_ids_perm(a: Seq<Element>, b: Seq<Element>)
    requires
        a.to_multiset() == b.to_multiset(),
    ensures
        ids(a) == ids(b),
{
    broadcast use vstd::seq_lib::to_multiset_contains;

    assert forall|i: usize| ids(a).contains(i) implies ids(b).contains(i) by {
        let k = choose|k: int| 0 <= k < a.len() && #[trigger] a[k].0 == i;
        assert(a.contains(a[k]));
        assert(a.to_multiset().count(a[k]) > 0);
        assert(b.contains(a[k]));
    }
    assert forall|i: usize| ids(b).contains(i) implies ids(a).contains(i) by {
        let k = choose|k: int| 0 <= k < b.len() && #[trigger] b[k].0 == i;
        assert(b.contains(b[k]));
        assert(b.to_multiset().count(b[k]) > 0);
        assert(a.contains(b[k]));
    }
    assert(ids(a) =~= ids(b));
}

/// The indices of a sequence are those of its two parts at any split point.
proof fn lemma_ids_split(s: Seq<Element>, mid: int)
    requires
        0 <= mid <= s.len(),
    ensures
        ids(s) == ids(s.subrange(0, mid)).union(ids(s.subrange(mid, s.len() as int))),
{
    let a = s.subrange(0, mid);
    let b = s.subrange(mid, s.len() as int);
    assert forall|i: usize| ids(s).contains(i) implies ids(a).union(ids(b)).contains(i) by {
        let k = choose|k: int| 0 <= k < s.len() && #[trigger] s[k].0 == i;
        if k < mid {
            assert(a[k].0 == i);
        } else {
            assert(b[k - mid].0 == i);
        }
    }
    assert forall|i: usize| ids(a).union(ids(b)).contains(i) implies ids(s).contains(i) by {
        if ids(a).contains(i) {
            let k = choose|k: int| 0 <= k < a.len() && #[trigger] a[k].0 == i;
            assert(s[k].0 == i);
        } else {
            let k = choose|k: int| 0 <= k < b.len() && #[trigger] b[k].0 == i;
            assert(s[k + mid].0 == i);
        }
    }
    assert(ids(s) =~= ids(a).union(ids(b)));
}

/// A hierarchy built from some elements holds every one of them and no other:
/// a query that reaches every node sees every element of the scene.
pub proof fn lemma_built_leaves(t: BVH, items: Seq<Element>)
    requires
        built_from(t, items),
    ensures
        leaves(t) == ids(items),
    decreases t,
{
    match t {
        BVH::Pair { axis, left_item, right_item } => {
            if items.len() == 1 {
                assert(items[0].0 == left_item);
                assert(leaves(t) =~= ids(items));
            } else {
                assert(items[0].0 == left_item || items[0].0 == right_item);
                assert(items[1].0 == left_item || items[1].0 == right_item);
                assert forall|i: usize| leaves(t).contains(i) implies ids(items).contains(i) by {
                    if items[0].0 == i {
                    } else {
                        assert(items[1].0 == i);
                    }
                }
                assert(leaves(t) =~= ids(items));
            }
        },
        BVH::Split { axis, left, right } => {
            let sorted = sort_desc(items, axis);
            let mid = items.len() / 2;
            lemma_sort_desc_perm(items, axis);
            lemma_built_leaves(*left, sorted.subrange(0, mid as int));
            lemma_built_leaves(*right, sorted.subrange(mid as int, items.len() as int));
            lemma_ids_split(sorted, mid as int);
            lemma_ids_perm(sorted, items);
        },
    }
}

} // verus!
