//! Nearest-hit queries: through a hierarchy, and by a linear scan.
//!
//! The geometry is left to two tests that the caller supplies: one of a
//! primitive and one of a node's bounds, each against a ray over a closed
//! interval of distances `[lo, hi]`. Both queries tighten the upper end of
//! the interval to each hit found, so a later hit is never farther than an
//! earlier one.
use vstd::prelude::*;
use crate::bvh::{BVH, BvhNode, JoinFn, bounds_cached, fold_bounds, in_range, indices, leaves};

verus! {

/// A ray's test of one primitive: the distance of its nearest hit in
/// `[lo, hi]`, if any.
pub type HitFn<D> = spec_fn(usize, D, D) -> Option<D>;

/// A ray's test of a bounding volume: whether the ray meets it somewhere in
/// `[lo, hi]`.
pub type BoxFn<B, D> = spec_fn(B, D, D) -> bool;

/// The closure `f` computes the primitive test `h`.
pub open spec fn computes_hit<D, F: Fn(usize, D, D) -> Option<D>>(f: F, h: HitFn<D>) -> bool {
    forall|i: usize, lo: D, hi: D, o: Option<D>|
        #[trigger] f.ensures((i, lo, hi), o) ==> o == h(i, lo, hi)
}

/// The closure `g` computes the bounds test `bx`.
pub open spec fn computes_box<B, D, G: Fn(&B, D, D) -> bool>(g: G, bx: BoxFn<B, D>) -> bool {
    forall|b: &B, lo: D, hi: D, o: bool| #[trigger] g.ensures((b, lo, hi), o) ==> o == bx(*b, lo, hi)
}

/// The closures can be called on every argument.
pub open spec fn callable<B, D, F: Fn(usize, D, D) -> Option<D>, G: Fn(&B, D, D) -> bool>(
    f: F,
    g: G,
) -> bool {
    &&& forall|i: usize, lo: D, hi: D| #[trigger] f.requires((i, lo, hi))
    &&& forall|b: &B, lo: D, hi: D| #[trigger] g.requires((b, lo, hi))
}

/// The primitives of `s` tested in order, the upper end of the interval
/// shrinking to each hit: the last primitive that hit, with its distance.
pub open spec fn scan<D>(h: HitFn<D>, s: Seq<usize>, lo: D, hi: D) -> Option<(usize, D)>
    decreases s.len(),
{
    if s.len() == 0 {
        None
    } else {
        match h(s[0], lo, hi) {
            Some(t) => match scan(h, s.drop_first(), lo, t) {
                Some(x) => Some(x),
                None => Some((s[0], t)),
            },
            None => scan(h, s.drop_first(), lo, hi),
        }
    }
}

/// What a scan of further primitives `s` makes of an earlier outcome `acc`.
pub open spec fn scan_after<D>(
    h: HitFn<D>,
    acc: Option<(usize, D)>,
    s: Seq<usize>,
    lo: D,
    hi: D,
) -> Option<(usize, D)> {
    match acc {
        Some((q, t)) => match scan(h, s, lo, t) {
            Some(x) => Some(x),
            None => Some((q, t)),
        },
        None => scan(h, s, lo, hi),
    }
}

/// The nearest hit under a node: a node whose bounds the ray misses is
/// skipped; otherwise the left child is searched, then the right one over
/// the interval that the left one's hit tightened.
pub open spec fn traverse<B, D>(h: HitFn<D>, bx: BoxFn<B, D>, n: BvhNode<B>, lo: D, hi: D) -> Option<
    (usize, D),
>
    decreases n,
{
    match n {
        BvhNode::Empty => None,
        BvhNode::Leaf(i) => match h(i, lo, hi) {
            Some(t) => Some((i, t)),
            None => None,
        },
        BvhNode::Branch(b, l, r) => if !bx(b, lo, hi) {
            None
        } else {
            match traverse(h, bx, *l, lo, hi) {
                Some((q, t)) => match traverse(h, bx, *r, lo, t) {
                    Some(x) => Some(x),
                    None => Some((q, t)),
                },
                None => traverse(h, bx, *r, lo, hi),
            }
        },
    }
}

/// Each inner node's bounds hold what lies under it: wherever the ray
/// misses the bounds, it hits none of the primitives below.
pub open spec fn bounds_hold<B, D>(h: HitFn<D>, bx: BoxFn<B, D>, n: BvhNode<B>) -> bool
    decreases n,
{
    match n {
        BvhNode::Branch(b, l, r) => {
            &&& forall|lo: D, hi: D, i: int|
                #![trigger bx(b, lo, hi), leaves(n)[i]]
                !bx(b, lo, hi) && 0 <= i < leaves(n).len() ==> h(
                    leaves(n)[i],
                    lo,
                    hi,
                ) is None
            &&& bounds_hold(h, bx, *l)
            &&& bounds_hold(h, bx, *r)
        },
        _ => true,
    }
}

/// A scan of `a + b` is a scan of `b` after a scan of `a`.
pub proof fn lemma_scan_append<D>(h: HitFn<D>, a: Seq<usize>, b: Seq<usize>, lo: D, hi: D)
    ensures
        scan(h, a + b, lo, hi) == scan_after(h, scan(h, a, lo, hi), b, lo, hi),
    decreases a.len(),
{
    if a.len() == 0 {
        assert(a + b =~= b);
    } else {
        assert((a + b).drop_first() =~= a.drop_first() + b);
        assert((a + b)[0] == a[0]);
        lemma_scan_append(h, a.drop_first(), b, lo, hi);
        match h(a[0], lo, hi) {
            Some(t) => {
                lemma_scan_append(h, a.drop_first(), b, lo, t);
            },
            None => {},
        }
    }
}

/// A scan over primitives none of which the ray hits finds nothing.
proof fn lemma_scan_misses<D>(h: HitFn<D>, s: Seq<usize>, lo: D, hi: D)
    requires
        forall|i: int| 0 <= i < s.len() ==> h(#[trigger] s[i], lo, hi) is None,
    ensures
        scan(h, s, lo, hi) is None,
    decreases s.len(),
{
    if s.len() > 0 {
        assert(h(s[0], lo, hi) is None);
        assert forall|i: int| 0 <= i < s.drop_first().len() implies h(
            #[trigger] s.drop_first()[i],
            lo,
            hi,
        ) is None by {
            assert(s.drop_first()[i] == s[i + 1]);
        }
        lemma_scan_misses(h, s.drop_first(), lo, hi);
    }
}

/// Under a node whose bounds hold, the traversal finds what a scan of the
/// primitives under it, left to right, finds.
pub proof fn lemma_traverse_is_scan<B, D>(h: HitFn<D>, bx: BoxFn<B, D>, n: BvhNode<B>, lo: D, hi: D)
    requires
        bounds_hold(h, bx, n),
    ensures
        traverse(h, bx, n, lo, hi) == scan(h, leaves(n), lo, hi),
    decreases n,
{
    match n {
        BvhNode::Empty => {
            assert(leaves(n).len() == 0);
        },
        BvhNode::Leaf(i) => {
            let rest = leaves(n).drop_first();
            assert(rest =~= Seq::<usize>::empty());
            assert(leaves(n)[0] == i);
            assert(scan(h, rest, lo, hi) is None);
            if let Some(t) = h(i, lo, hi) {
                assert(scan(h, rest, lo, t) is None);
            }
        },
        BvhNode::Branch(b, l, r) => {
            lemma_scan_append(h, leaves(*l), leaves(*r), lo, hi);
            lemma_traverse_is_scan(h, bx, *l, lo, hi);
            lemma_traverse_is_scan(h, bx, *r, lo, hi);
            if !bx(b, lo, hi) {
                assert forall|i: int| 0 <= i < leaves(n).len() implies h(
                    #[trigger] leaves(n)[i],
                    lo,
                    hi,
                ) is None by {}
                lemma_scan_misses(h, leaves(n), lo, hi);
            } else {
                match traverse(h, bx, *l, lo, hi) {
                    Some((q, t)) => {
                        lemma_traverse_is_scan(h, bx, *r, lo, t);
                    },
                    None => {},
                }
            }
        },
    }
}

/// A hierarchy whose bounds hold finds, for every ray and interval, the
/// same primitive at the same distance as a linear scan of its primitives
/// from left to right; those primitives are the scene's, each once (see
/// `BVH::new`).
pub proof fn lemma_bvh_agrees_with_scan<B, D>(h: HitFn<D>, bx: BoxFn<B, D>, t: BVH<B>, lo: D, hi: D)
    requires
        bounds_hold(h, bx, t.root()),
    ensures
        traverse(h, bx, t.root(), lo, hi) == scan(h, t.leaves(), lo, hi),
{
    lemma_traverse_is_scan(h, bx, t.root(), lo, hi);
}

/// A primitive test over integer distances that reports the nearest hit in
/// the interval: its distance lies in `[lo, hi]`, stays the answer for any
/// upper end at or past it, and no hit remains below it; a miss stays a
/// miss when the interval shrinks.
pub open spec fn reports_nearest(h: HitFn<int>) -> bool {
    &&& forall|p: usize, lo: int, hi: int|
        #[trigger] h(p, lo, hi) matches Some(t) ==> lo <= t <= hi
    &&& forall|p: usize, lo: int, hi: int, hi2: int|
        #![trigger h(p, lo, hi), h(p, lo, hi2)]
        h(p, lo, hi) is Some && h(p, lo, hi)->Some_0 <= hi2 ==> h(p, lo, hi2) == h(p, lo, hi)
    &&& forall|p: usize, lo: int, hi: int, hi2: int|
        #![trigger h(p, lo, hi), h(p, lo, hi2)]
        h(p, lo, hi) is Some && hi2 < h(p, lo, hi)->Some_0 ==> h(p, lo, hi2) is None
    &&& forall|p: usize, lo: int, hi: int, hi2: int|
        #![trigger h(p, lo, hi), h(p, lo, hi2)]
        h(p, lo, hi) is None && hi2 <= hi ==> h(p, lo, hi2) is None
}

/// `r` is the nearest hit among the primitives of `s`: `None` exactly when
/// none of them is hit, else one of them and its distance, which no hit of
/// the others undercuts.
pub open spec fn is_nearest(h: HitFn<int>, s: Seq<usize>, lo: int, hi: int, r: Option<(usize, int)>) -> bool {
    match r {
        None => forall|i: int| 0 <= i < s.len() ==> #[trigger] h(s[i], lo, hi) is None,
        Some((q, d)) => {
            &&& s.contains(q)
            &&& h(q, lo, hi) == Some(d)
            &&& forall|i: int|
                0 <= i < s.len() ==> (#[trigger] h(s[i], lo, hi) matches Some(u) ==> d <= u)
        },
    }
}

/// With a test that reports the nearest hit, a scan finds the nearest hit,
/// whatever the order of the primitives.
pub proof fn lemma_scan_is_nearest(h: HitFn<int>, s: Seq<usize>, lo: int, hi: int)
    requires
        reports_nearest(h),
    ensures
        is_nearest(h, s, lo, hi, scan(h, s, lo, hi)),
    decreases s.len(),
{
    if s.len() > 0 {
        let rest = s.drop_first();
        assert forall|i: int| 0 < i < s.len() implies s[i] == #[trigger] rest[i - 1] by {}
        match h(s[0], lo, hi) {
            None => {
                lemma_scan_is_nearest(h, rest, lo, hi);
                match scan(h, rest, lo, hi) {
                    None => {
                        assert forall|i: int| 0 <= i < s.len() implies #[trigger] h(s[i], lo, hi) is None by {
                            if i > 0 {
                                assert(h(rest[i - 1], lo, hi) is None);
                            }
                        }
                    },
                    Some((q, d)) => {
                        assert(rest.contains(q));
                        let k = choose|k: int| 0 <= k < rest.len() && rest[k] == q;
                        assert(s[k + 1] == q);
                        assert forall|i: int| 0 <= i < s.len() implies (#[trigger] h(s[i], lo, hi) matches Some(u) ==> d <= u) by {
                            if i > 0 {
                                assert(h(rest[i - 1], lo, hi) matches Some(u) ==> d <= u);
                            }
                        }
                    },
                }
            },
            Some(t) => {
                lemma_scan_is_nearest(h, rest, lo, t);
                match scan(h, rest, lo, t) {
                    None => {
                        assert forall|i: int| 0 <= i < s.len() implies (#[trigger] h(s[i], lo, hi) matches Some(u) ==> t <= u) by {
                            if i > 0 {
                                assert(h(rest[i - 1], lo, t) is None);
                                if let Some(u) = h(s[i], lo, hi) {
                                    if u <= t {
                                        assert(h(s[i], lo, t) == Some(u));
                                    }
                                }
                            }
                        }
                        assert(s.contains(s[0]));
                    },
                    Some((q, d)) => {
                        assert(rest.contains(q));
                        let k = choose|k: int| 0 <= k < rest.len() && rest[k] == q;
                        assert(s[k + 1] == q);
                        assert(h(q, lo, t) == Some(d));
                        assert(d <= t);
                        assert(h(q, lo, hi) == Some(d));
                        assert forall|i: int| 0 <= i < s.len() implies (#[trigger] h(s[i], lo, hi) matches Some(u) ==> d <= u) by {
                            if i > 0 {
                                if let Some(u) = h(s[i], lo, hi) {
                                    if u <= t {
                                        assert(h(s[i], lo, t) == Some(u));
                                        assert(h(rest[i - 1], lo, t) matches Some(u2) ==> d <= u2);
                                    }
                                }
                            }
                        }
                    },
                }
            },
        }
    }
}

/// Two lists of the same primitives, each once, name the same primitives.
proof fn lemma_same_members(a: Seq<usize>, b: Seq<usize>)
    requires
        a.to_multiset() == b.to_multiset(),
    ensures
        forall|q: usize| a.contains(q) <==> b.contains(q),
{
    assert forall|q: usize| a.contains(q) <==> b.contains(q) by {
        vstd::seq_lib::to_multiset_contains(a, q);
        vstd::seq_lib::to_multiset_contains(b, q);
    }
}

/// With a test that reports the nearest hit and bounds that hold, a
/// hierarchy over the primitives `0..n`, each in one leaf (as `BVH::new`
/// builds it), finds the nearest hit among all of them: the same hit or miss,
/// and the same distance, as a linear scan over them in any order.
pub proof fn lemma_bvh_finds_nearest<B>(h: HitFn<int>, bx: BoxFn<B, int>, t: BVH<B>, n: nat, lo: int, hi: int)
    requires
        reports_nearest(h),
        bounds_hold(h, bx, t.root()),
        t.leaves().to_multiset() == crate::bvh::indices(n).to_multiset(),
    ensures
        is_nearest(h, crate::bvh::indices(n), lo, hi, traverse(h, bx, t.root(), lo, hi)),
{
    let all = crate::bvh::indices(n);
    let s = t.leaves();
    lemma_bvh_agrees_with_scan(h, bx, t, lo, hi);
    assert(leaves(t.root()) == s);
    lemma_scan_is_nearest(h, s, lo, hi);
    lemma_same_members(s, all);
    assert forall|q: usize| s.contains(q) <==> q < n by {
        if q < n {
            assert(all[q as int] == q);
        }
    }
    match scan(h, s, lo, hi) {
        None => {
            assert forall|i: int| 0 <= i < all.len() implies #[trigger] h(all[i], lo, hi) is None by {
                assert(all.contains(all[i]));
                let k = choose|k: int| 0 <= k < s.len() && s[k] == all[i];
                assert(h(s[k], lo, hi) is None);
            }
        },
        Some((q, d)) => {
            assert(all[q as int] == q);
            assert forall|i: int| 0 <= i < all.len() implies (#[trigger] h(all[i], lo, hi) matches Some(u) ==> d <= u) by {
                assert(all.contains(all[i]));
                let k = choose|k: int| 0 <= k < s.len() && s[k] == all[i];
                assert(h(s[k], lo, hi) matches Some(u) ==> d <= u);
            }
        },
    }
}

/// A ray that misses a join of two volumes misses both.
pub open spec fn join_encloses<B, D>(bx: BoxFn<B, D>, j: JoinFn<B>) -> bool {
    forall|a: B, b: B, lo: D, hi: D|
        #[trigger] bx(j(a, b), lo, hi) || (!bx(a, lo, hi) && !bx(b, lo, hi))
}

/// A ray that misses the bounds of a primitive (one of `bounds`) misses
/// the primitive.
pub open spec fn bounds_enclose<B, D>(h: HitFn<D>, bx: BoxFn<B, D>, bounds: Seq<B>) -> bool {
    forall|i: usize, lo: D, hi: D|
        i < bounds.len() && !bx(bounds[i as int], lo, hi) ==> #[trigger] h(i, lo, hi) is None
}

/// A ray that misses the join of the bounds of `s` misses each of them.
proof fn lemma_fold_misses<B, D>(bx: BoxFn<B, D>, j: JoinFn<B>, bounds: Seq<B>, s: Seq<usize>, lo: D, hi: D)
    requires
        join_encloses(bx, j),
        s.len() >= 1,
        !bx(fold_bounds(j, bounds, s), lo, hi),
    ensures
        forall|k: int| 0 <= k < s.len() ==> !bx(bounds[#[trigger] s[k] as int], lo, hi),
    decreases s.len(),
{
    if s.len() > 1 {
        let init = s.drop_last();
        assert(!bx(fold_bounds(j, bounds, init), lo, hi) && !bx(bounds[s.last() as int], lo, hi)) by {
            assert(bx(j(fold_bounds(j, bounds, init), bounds[s.last() as int]), lo, hi) || (!bx(
                fold_bounds(j, bounds, init),
                lo,
                hi,
            ) && !bx(bounds[s.last() as int], lo, hi)));
        }
        lemma_fold_misses(bx, j, bounds, init, lo, hi);
        assert forall|k: int| 0 <= k < s.len() implies !bx(bounds[#[trigger] s[k] as int], lo, hi) by {
            if k < s.len() - 1 {
                assert(s[k] == init[k]);
            }
        }
    }
}

/// Where every node caches the join of the bounds under it, joins enclose
/// what they join and each primitive's bounds enclose the primitive, the
/// bounds of every node hold what lies under it.
pub proof fn lemma_cached_bounds_hold<B, D>(
    h: HitFn<D>,
    bx: BoxFn<B, D>,
    j: JoinFn<B>,
    bounds: Seq<B>,
    n: BvhNode<B>,
)
    requires
        bounds_cached(j, bounds, n),
        in_range(leaves(n), bounds.len()),
        join_encloses(bx, j),
        bounds_enclose(h, bx, bounds),
    ensures
        bounds_hold(h, bx, n),
    decreases n,
{
    if let BvhNode::Branch(b, l, r) = n {
        let s = leaves(n);
        assert forall|lo: D, hi: D, i: int|
            #![trigger bx(b, lo, hi), leaves(n)[i]]
            !bx(b, lo, hi) && 0 <= i < s.len() implies h(s[i], lo, hi) is None by {
            lemma_fold_misses(bx, j, bounds, s, lo, hi);
            assert(!bx(bounds[s[i] as int], lo, hi));
        }
        assert(in_range(leaves(*l), bounds.len())) by {
            assert forall|k: int| 0 <= k < leaves(*l).len() implies leaves(*l)[k] < bounds.len() by {
                assert(s[k] == leaves(*l)[k]);
            }
        }
        assert(in_range(leaves(*r), bounds.len())) by {
            assert forall|k: int| 0 <= k < leaves(*r).len() implies leaves(*r)[k] < bounds.len() by {
                assert(s[leaves(*l).len() + k] == leaves(*r)[k]);
            }
        }
        lemma_cached_bounds_hold(h, bx, j, bounds, *l);
        lemma_cached_bounds_hold(h, bx, j, bounds, *r);
    }
}

/// A hierarchy as `BVH::new` builds it over `bounds`, with a join that
/// encloses what it joins, bounds that enclose their primitives, and a
/// primitive test that reports the nearest hit, finds the nearest hit among
/// all the primitives: the same hit or miss, and the same distance, as a
/// linear scan over them in any order.
pub proof fn lemma_built_bvh_finds_nearest<B>(
    h: HitFn<int>,
    bx: BoxFn<B, int>,
    j: JoinFn<B>,
    bounds: Seq<B>,
    t: BVH<B>,
    lo: int,
    hi: int,
)
    requires
        t.leaves().to_multiset() == indices(bounds.len()).to_multiset(),
        bounds_cached(j, bounds, t.root()),
        join_encloses(bx, j),
        bounds_enclose(h, bx, bounds),
        reports_nearest(h),
    ensures
        is_nearest(h, indices(bounds.len()), lo, hi, traverse(h, bx, t.root(), lo, hi)),
{
    let s = t.leaves();
    let all = indices(bounds.len());
    assert(leaves(t.root()) == s);
    lemma_same_members(s, all);
    assert(in_range(s, bounds.len())) by {
        assert forall|k: int| 0 <= k < s.len() implies s[k] < bounds.len() by {
            assert(s.contains(s[k]));
            assert(all.contains(s[k]));
        }
    }
    lemma_cached_bounds_hold(h, bx, j, bounds, t.root());
    lemma_bvh_finds_nearest(h, bx, t, bounds.len(), lo, hi);
}

/// The nearest hit under `n`, as `traverse` gives it for whatever tests
/// the closures compute.
pub fn hit_node<B, D: Copy, F: Fn(usize, D, D) -> Option<D>, G: Fn(&B, D, D) -> bool>(
    hit: &F,
    box_hit: &G,
    n: &BvhNode<B>,
    lo: D,
    hi: D,
) -> (r: Option<(usize, D)>)
    requires
        callable(*hit, *box_hit),
    ensures
        forall|h: HitFn<D>, bx: BoxFn<B, D>|
            computes_hit(*hit, h) && computes_box(*box_hit, bx) ==> r == #[trigger] traverse(
                h,
                bx,
                *n,
                lo,
                hi,
            ),
    decreases n,
{
    match n {
        BvhNode::Empty => None,
        BvhNode::Leaf(i) => {
            let o = hit(*i, lo, hi);
            let res = match o {
                Some(t) => Some((*i, t)),
                None => None,
            };
            proof {
                assert forall|h: HitFn<D>, bx: BoxFn<B, D>|
                    computes_hit(*hit, h) && computes_box(*box_hit, bx) implies res == traverse(
                    h,
                    bx,
                    *n,
                    lo,
                    hi,
                ) by {
                    assert(hit.ensures((*i, lo, hi), o));
                }
            }
            res
        },
        BvhNode::Branch(b, l, r) => {
            let ok = box_hit(b, lo, hi);
            if !ok {
                proof {
                    assert forall|h: HitFn<D>, bx: BoxFn<B, D>|
                        computes_hit(*hit, h) && computes_box(*box_hit, bx) implies traverse(
                        h,
                        bx,
                        *n,
                        lo,
                        hi,
                    ) is None by {
                        assert(box_hit.ensures((b, lo, hi), ok));
                    }
                }
                return None;
            }
            let a = hit_node(hit, box_hit, l, lo, hi);
            let (c, res) = match a {
                Some((q, t)) => {
                    let c = hit_node(hit, box_hit, r, lo, t);
                    let res = match c {
                        Some(x) => Some(x),
                        None => Some((q, t)),
                    };
                    (c, res)
                },
                None => {
                    let c = hit_node(hit, box_hit, r, lo, hi);
                    (c, c)
                },
            };
            proof {
                assert forall|h: HitFn<D>, bx: BoxFn<B, D>|
                    computes_hit(*hit, h) && computes_box(*box_hit, bx) implies res == traverse(
                    h,
                    bx,
                    *n,
                    lo,
                    hi,
                ) by {
                    assert(box_hit.ensures((b, lo, hi), ok));
                    assert(traverse(h, bx, **l, lo, hi) == a);
                    match a {
                        Some((q, t)) => {
                            assert(traverse(h, bx, **r, lo, t) == c);
                        },
                        None => {
                            assert(traverse(h, bx, **r, lo, hi) == c);
                        },
                    }
                }
            }
            res
        },
    }
}

impl<B> BVH<B> {
    /// The nearest hit in the hierarchy over `[lo, hi]`: the primitive and
    /// its distance, or `None` where the ray hits nothing; `hit` tests a
    /// primitive and `box_hit` a node's bounds.
    pub fn hit<D: Copy, F: Fn(usize, D, D) -> Option<D>, G: Fn(&B, D, D) -> bool>(
        &self,
        hit: &F,
        box_hit: &G,
        lo: D,
        hi: D,
    ) -> (r: Option<(usize, D)>)
        requires
            callable(*hit, *box_hit),
        ensures
            forall|h: HitFn<D>, bx: BoxFn<B, D>|
                computes_hit(*hit, h) && computes_box(*box_hit, bx) ==> r == #[trigger] traverse(
                    h,
                    bx,
                    self.root(),
                    lo,
                    hi,
                ),
    {
        let ok = box_hit(&self.bounds, lo, hi);
        if !ok {
            proof {
                assert forall|h: HitFn<D>, bx: BoxFn<B, D>|
                    computes_hit(*hit, h) && computes_box(*box_hit, bx) implies traverse(
                    h,
                    bx,
                    self.root(),
                    lo,
                    hi,
                ) is None by {
                    assert(box_hit.ensures((&self.bounds, lo, hi), ok));
                }
            }
            return None;
        }
        let a = hit_node(hit, box_hit, &self.left, lo, hi);
        let (c, res) = match a {
            Some((q, t)) => {
                let c = hit_node(hit, box_hit, &self.right, lo, t);
                let res = match c {
                    Some(x) => Some(x),
                    None => Some((q, t)),
                };
                (c, res)
            },
            None => {
                let c = hit_node(hit, box_hit, &self.right, lo, hi);
                (c, c)
            },
        };
        proof {
            assert forall|h: HitFn<D>, bx: BoxFn<B, D>|
                computes_hit(*hit, h) && computes_box(*box_hit, bx) implies res == traverse(
                h,
                bx,
                self.root(),
                lo,
                hi,
            ) by {
                assert(box_hit.ensures((&self.bounds, lo, hi), ok));
                assert(traverse(h, bx, self.left, lo, hi) == a);
                match a {
                    Some((q, t)) => {
                        assert(traverse(h, bx, self.right, lo, t) == c);
                    },
                    None => {
                        assert(traverse(h, bx, self.right, lo, hi) == c);
                    },
                }
            }
        }
        res
    }
}

/// The nearest hit among `prims`, tested in order, as `scan` gives it for
/// whatever test the closure computes: the unaccelerated query over a flat
/// list.
pub fn scan_hit<D: Copy, F: Fn(usize, D, D) -> Option<D>>(
    hit: &F,
    prims: &Vec<usize>,
    lo: D,
    hi: D,
) -> (r: Option<(usize, D)>)
    requires
        forall|i: usize, lo: D, hi: D| #[trigger] hit.requires((i, lo, hi)),
    ensures
        forall|h: HitFn<D>| computes_hit(*hit, h) ==> r == #[trigger] scan(h, prims@, lo, hi),
{
    let mut found: Option<(usize, D)> = None;
    let mut closest = hi;
    let mut k: usize = 0;
    let ghost outcomes: Seq<Option<D>> = Seq::empty();
    assert(prims@.subrange(0, prims@.len() as int) =~= prims@);
    while k < prims.len()
        invariant
            k <= prims@.len(),
            forall|i: usize, lo: D, hi: D| #[trigger] hit.requires((i, lo, hi)),
            found is None ==> closest == hi,
            found matches Some((q, t)) ==> closest == t,
            forall|h: HitFn<D>|
                computes_hit(*hit, h) ==> #[trigger] scan(h, prims@, lo, hi) == scan_after(
                    h,
                    found,
                    prims@.subrange(k as int, prims@.len() as int),
                    lo,
                    hi,
                ),
        decreases prims@.len() - k,
    {
        let ghost rest = prims@.subrange(k as int, prims@.len() as int);
        assert(rest.drop_first() =~= prims@.subrange(k + 1, prims@.len() as int));
        let ghost found0 = found;
        let ghost closest0 = closest;
        let o = hit(prims[k], lo, closest);
        match o {
            Some(t) => {
                found = Some((prims[k], t));
                closest = t;
            },
            None => {},
        }
        proof {
            assert forall|h: HitFn<D>| computes_hit(*hit, h) implies #[trigger] scan(
                h,
                prims@,
                lo,
                hi,
            ) == scan_after(h, found, prims@.subrange(k + 1, prims@.len() as int), lo, hi) by {
                assert(hit.ensures((prims@[k as int], lo, closest0), o));
                assert(scan(h, prims@, lo, hi) == scan_after(h, found0, rest, lo, hi));
                assert(rest[0] == prims@[k as int]);
            }
        }
        k = k + 1;
    }
    assert(prims@.subrange(k as int, prims@.len() as int) =~= Seq::<usize>::empty());
    found
}

} // verus!
