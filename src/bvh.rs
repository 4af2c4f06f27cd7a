//! The shape of a bounding-volume hierarchy over a list of primitives,
//! built by median splits along an axis picked at random at each level.
//!
//! Primitives are named by their index in the scene's list. Each one comes
//! with a `SortKey`: the minimum corner of its bounding box, each coordinate
//! turned into an integer that orders as the coordinate does.
use vstd::prelude::*;
use vstd::seq_lib::*;
use rand::Rng;

verus! {

broadcast use {
    to_multiset_build,
    to_multiset_insert,
    to_multiset_len,
    to_multiset_contains,
    lemma_multiset_commutative,
};

/// The minimum corner of a primitive's bounding box, as order keys.
#[derive(Clone, Copy, Debug, PartialEq, Eq, Structural)]
pub struct SortKey {
    pub x: u64,
    pub y: u64,
    pub z: u64,
}

/// The key of `k` along axis `axis` (0 is x, 1 is y, 2 is z).
pub open spec fn key_on(k: SortKey, axis: nat) -> u64 {
    if axis == 0 {
        k.x
    } else if axis == 1 {
        k.y
    } else {
        k.z
    }
}

/// The sign bit of an IEEE-754 double's bit pattern.
pub const SIGN_BIT: u64 = 0x8000_0000_0000_0000;

/// The value that a double's bit pattern encodes in sign-magnitude form:
/// the magnitude bits, negated where the sign bit is set. For every double
/// that is not a NaN, doubles order as these values do.
pub open spec fn sign_magnitude(bits: u64) -> int {
    if bits >= SIGN_BIT {
        -(bits - SIGN_BIT)
    } else {
        bits as int
    }
}

/// The order key of a double's bit pattern: negative patterns are
/// complemented and the others have the sign bit set.
pub open spec fn order_key_spec(bits: u64) -> u64 {
    if bits >= SIGN_BIT {
        (u64::MAX - bits) as u64
    } else {
        (bits + SIGN_BIT) as u64
    }
}

/// Turns the bit pattern of a double into an unsigned key that orders as
/// the double does (see `lemma_order_key_monotone`). Negative zero sorts
/// just below positive zero; a NaN sorts above or below every number,
/// according to its sign bit.
pub fn order_key(bits: u64) -> (r: u64)
    ensures
        r == order_key_spec(bits),
{
    if bits >= SIGN_BIT {
        u64::MAX - bits
    } else {
        bits + SIGN_BIT
    }
}

/// Keys keep the order of the values that the bit patterns encode.
pub proof fn lemma_order_key_monotone(a: u64, b: u64)
    requires
        sign_magnitude(a) < sign_magnitude(b),
    ensures
        order_key_spec(a) < order_key_spec(b),
{
}

impl SortKey {
    /// The keys of a corner given by the bit patterns of its coordinates.
    pub fn from_bits(x: u64, y: u64, z: u64) -> (r: SortKey)
        ensures
            r.x == order_key_spec(x),
            r.y == order_key_spec(y),
            r.z == order_key_spec(z),
    {
        SortKey { x: order_key(x), y: order_key(y), z: order_key(z) }
    }

    pub fn on(&self, axis: usize) -> (r: u64)
        ensures
            r == key_on(*self, axis as nat),
    {
        if axis == 0 {
            self.x
        } else if axis == 1 {
            self.y
        } else {
            self.z
        }
    }
}

/// How two bounding volumes join into the smallest one holding both.
pub type JoinFn<B> = spec_fn(B, B) -> B;

/// The closure `f` computes the join `j`.
pub open spec fn computes_join<B, F: Fn(&B, &B) -> B>(f: F, j: JoinFn<B>) -> bool {
    forall|a: &B, b: &B, o: B| #[trigger] f.ensures((a, b), o) ==> o == j(*a, *b)
}

/// The closure can be called on every pair of volumes.
pub open spec fn join_callable<B, F: Fn(&B, &B) -> B>(f: F) -> bool {
    forall|a: &B, b: &B| #[trigger] f.requires((a, b))
}

/// A child of a hierarchy node.
#[derive(Debug)]
pub enum BvhNode<B> {
    /// Stands beside a lone primitive; never hit.
    Empty,
    /// The primitive with this index.
    Leaf(usize),
    /// An inner node: the bounds of what lies under it, and its two children.
    Branch(B, Box<BvhNode<B>>, Box<BvhNode<B>>),
}

/// The root of a hierarchy: the bounds of the whole scene and two children,
/// the left one tested first.
#[derive(Debug)]
pub struct BVH<B> {
    pub left: BvhNode<B>,
    pub right: BvhNode<B>,
    pub bounds: B,
}

/// The primitives under a node, left to right.
pub open spec fn leaves<B>(n: BvhNode<B>) -> Seq<usize>
    decreases n,
{
    match n {
        BvhNode::Empty => Seq::empty(),
        BvhNode::Leaf(i) => seq![i],
        BvhNode::Branch(_, l, r) => leaves(*l) + leaves(*r),
    }
}

/// The bounds of the primitives of `s` (at least one), joined left to
/// right.
pub open spec fn fold_bounds<B>(j: JoinFn<B>, bounds: Seq<B>, s: Seq<usize>) -> B
    decreases s.len(),
{
    if s.len() <= 1 {
        bounds[s[0] as int]
    } else {
        j(fold_bounds(j, bounds, s.drop_last()), bounds[s.last() as int])
    }
}

/// Every inner node under `n` caches the join, left to right, of the
/// bounds of the primitives under it.
pub open spec fn bounds_cached<B>(j: JoinFn<B>, bounds: Seq<B>, n: BvhNode<B>) -> bool
    decreases n,
{
    match n {
        BvhNode::Branch(b, l, r) => {
            &&& b == fold_bounds(j, bounds, leaves(n))
            &&& bounds_cached(j, bounds, *l)
            &&& bounds_cached(j, bounds, *r)
        },
        _ => true,
    }
}

/// `s` is in ascending order of the keys along `axis`.
pub open spec fn sorted_on(s: Seq<usize>, keys: Seq<SortKey>, axis: nat) -> bool {
    forall|i: int, j: int|
        0 <= i < j < s.len() ==> key_on(keys[s[i] as int], axis) <= key_on(
            keys[s[j] as int],
            axis,
        )
}

/// Along `axis`, no key of `a` is above a key of `b`.
pub open spec fn apart_on(a: Seq<usize>, b: Seq<usize>, keys: Seq<SortKey>, axis: nat) -> bool {
    forall|p: usize, q: usize|
        #![trigger a.contains(p), b.contains(q)]
        a.contains(p) && b.contains(q) ==> key_on(keys[p as int], axis) <= key_on(
            keys[q as int],
            axis,
        )
}

/// An inner node follows the construction rule: a lone primitive beside an
/// empty child, two primitives side by side, or, for three or more, the
/// lower half (rounded down) along some axis on the left and the rest on the
/// right, each split the same way in turn.
pub open spec fn split_rule<B>(n: BvhNode<B>, keys: Seq<SortKey>) -> bool
    decreases n,
{
    match n {
        BvhNode::Branch(_, l, r) => match (*l, *r) {
            (BvhNode::Leaf(_), BvhNode::Empty) => true,
            (BvhNode::Leaf(_), BvhNode::Leaf(_)) => true,
            (BvhNode::Branch(_, _, _), BvhNode::Branch(_, _, _)) => {
                let nl = leaves(*l).len();
                let nr = leaves(*r).len();
                &&& split_rule(*l, keys)
                &&& split_rule(*r, keys)
                &&& nl + nr >= 3
                &&& nl == (nl + nr) / 2
                &&& exists|axis: nat|
                    axis < 3 && #[trigger] apart_on(leaves(*l), leaves(*r), keys, axis)
            },
            _ => false,
        },
        _ => false,
    }
}

/// The indices `0..n` in order.
pub open spec fn indices(n: nat) -> Seq<usize> {
    Seq::new(n, |i: int| i as usize)
}

/// Relies on rand's `Rng::gen_range` over the thread-local generator: a
/// value drawn from `0..3`.
#[verifier::external_body]
fn random_axis() -> (r: usize)
    ensures
        r < 3,
{
    rand::thread_rng().gen_range(0..3usize)
}

/// Sorts `items` in ascending order of their keys along `axis`; items with
/// equal keys keep their order.
pub fn sort_on_axis(items: &Vec<usize>, keys: &Vec<SortKey>, axis: usize) -> (r: Vec<usize>)
    requires
        axis < 3,
        forall|i: int| 0 <= i < items@.len() ==> items@[i] < keys@.len(),
    ensures
        r@.to_multiset() == items@.to_multiset(),
        sorted_on(r@, keys@, axis as nat),
        forall|i: int| 0 <= i < r@.len() ==> r@[i] < keys@.len(),
{
    let mut out: Vec<usize> = Vec::new();
    let mut k: usize = 0;
    assert(out@ =~= items@.subrange(0, 0));
    while k < items.len()
        invariant
            k <= items@.len(),
            axis < 3,
            forall|i: int| 0 <= i < items@.len() ==> items@[i] < keys@.len(),
            out@.to_multiset() == items@.subrange(0, k as int).to_multiset(),
            sorted_on(out@, keys@, axis as nat),
            forall|i: int| 0 <= i < out@.len() ==> out@[i] < keys@.len(),
        decreases items@.len() - k,
    {
        let x = items[k];
        let kx = keys[x].on(axis);
        let mut pos: usize = out.len();
        while pos > 0 && keys[out[pos - 1]].on(axis) > kx
            invariant
                pos <= out@.len(),
                axis < 3,
                x < keys@.len(),
                kx == key_on(keys@[x as int], axis as nat),
                forall|i: int| 0 <= i < out@.len() ==> out@[i] < keys@.len(),
                forall|i: int| pos <= i < out@.len() ==> kx < key_on(keys@[out@[i] as int], axis as nat),
                sorted_on(out@, keys@, axis as nat),
            decreases pos,
        {
            pos = pos - 1;
        }
        proof {
            assert(items@.subrange(0, k + 1) =~= items@.subrange(0, k as int).push(x));
        }
        let ghost old_out = out@;
        out.insert(pos, x);
        proof {
            assert forall|i: int, j: int| 0 <= i < j < out@.len() implies key_on(
                keys@[out@[i] as int],
                axis as nat,
            ) <= key_on(keys@[out@[j] as int], axis as nat) by {
                if i < pos && j > pos {
                    if pos > 0 {
                        assert(key_on(keys@[old_out[pos - 1] as int], axis as nat) <= kx);
                    }
                }
            }
        }
        k = k + 1;
    }
    assert(items@.subrange(0, items@.len() as int) =~= items@);
    out
}

/// Every item of `s` is below `n`.
pub open spec fn in_range(s: Seq<usize>, n: nat) -> bool {
    forall|i: int| 0 <= i < s.len() ==> s[i] < n
}

proof fn lemma_apart_by_multiset(
    a: Seq<usize>,
    b: Seq<usize>,
    a2: Seq<usize>,
    b2: Seq<usize>,
    keys: Seq<SortKey>,
    axis: nat,
)
    requires
        apart_on(a, b, keys, axis),
        a2.to_multiset() == a.to_multiset(),
        b2.to_multiset() == b.to_multiset(),
    ensures
        apart_on(a2, b2, keys, axis),
{
    assert forall|p: usize, q: usize| a2.contains(p) && b2.contains(q) implies key_on(
        keys[p as int],
        axis,
    ) <= key_on(keys[q as int], axis) by {
        assert(a2.to_multiset().count(p) > 0);
        assert(b2.to_multiset().count(q) > 0);
        assert(a.contains(p));
        assert(b.contains(q));
    }
}

/// The bounds of all of `items`, joined left to right.
fn bounds_of<B: Copy, F: Fn(&B, &B) -> B>(items: &Vec<usize>, bounds: &Vec<B>, join: &F) -> (r: B)
    requires
        items@.len() >= 1,
        in_range(items@, bounds@.len()),
        join_callable(*join),
    ensures
        forall|j: JoinFn<B>| computes_join(*join, j) ==> r == #[trigger] fold_bounds(j, bounds@, items@),
{
    let mut acc = bounds[items[0]];
    let mut k: usize = 1;
    assert forall|j: JoinFn<B>| computes_join(*join, j) implies acc == #[trigger] fold_bounds(
        j,
        bounds@,
        items@.subrange(0, 1),
    ) by {}
    while k < items.len()
        invariant
            1 <= k <= items@.len(),
            in_range(items@, bounds@.len()),
            join_callable(*join),
            forall|j: JoinFn<B>|
                computes_join(*join, j) ==> acc == #[trigger] fold_bounds(
                    j,
                    bounds@,
                    items@.subrange(0, k as int),
                ),
        decreases items@.len() - k,
    {
        let ghost acc0 = acc;
        let next = join(&acc, &bounds[items[k]]);
        proof {
            assert forall|j: JoinFn<B>| computes_join(*join, j) implies next == #[trigger] fold_bounds(
                j,
                bounds@,
                items@.subrange(0, k + 1),
            ) by {
                let s = items@.subrange(0, k + 1);
                assert(s.drop_last() =~= items@.subrange(0, k as int));
                assert(acc0 == fold_bounds(j, bounds@, items@.subrange(0, k as int)));
                assert(join.ensures((&acc0, &bounds@[items@[k as int] as int]), next));
            }
        }
        acc = next;
        k = k + 1;
    }
    assert(items@.subrange(0, items@.len() as int) =~= items@);
    acc
}

/// Builds the bounds and the two children of a node over `items` (at
/// least one), with the primitives under the node from left to right.
fn build<B: Copy, F: Fn(&B, &B) -> B>(
    items: Vec<usize>,
    bounds: &Vec<B>,
    keys: &Vec<SortKey>,
    join: &F,
) -> (r: (B, BvhNode<B>, BvhNode<B>, Vec<usize>))
    requires
        items@.len() >= 1,
        bounds@.len() == keys@.len(),
        in_range(items@, keys@.len()),
        join_callable(*join),
    ensures
        (leaves(r.1) + leaves(r.2)).to_multiset() == items@.to_multiset(),
        r.3@ == leaves(r.1) + leaves(r.2),
        split_rule(BvhNode::Branch(r.0, Box::new(r.1), Box::new(r.2)), keys@),
        forall|j: JoinFn<B>|
            computes_join(*join, j) ==> #[trigger] bounds_cached(
                j,
                bounds@,
                BvhNode::Branch(r.0, Box::new(r.1), Box::new(r.2)),
            ),
    decreases items@.len(),
{
    let n = items.len();
    let mut under: Vec<usize> = Vec::new();
    let (left, right) = if n == 1 {
        under.push(items[0]);
        let r = (BvhNode::Leaf(items[0]), BvhNode::Empty);
        assert(leaves(r.0) + leaves(r.1) =~= items@);
        assert(under@ =~= leaves(r.0) + leaves(r.1));
        r
    } else if n == 2 {
        under.push(items[1]);
        under.push(items[0]);
        let r = (BvhNode::Leaf(items[1]), BvhNode::Leaf(items[0]));
        assert(leaves(r.0) + leaves(r.1) =~= seq![items@[1]] + seq![items@[0]]);
        assert(items@ =~= seq![items@[0]] + seq![items@[1]]);
        assert(under@ =~= leaves(r.0) + leaves(r.1));
        r
    } else {
        let axis = random_axis();
        let mut lower = sort_on_axis(&items, keys, axis);
        let ghost sorted = lower@;
        assert(lower@.len() == n) by {
            assert(lower@.to_multiset().len() == items@.to_multiset().len());
        }
        let upper = lower.split_off(n / 2);
        assert(sorted =~= lower@ + upper@);
        assert(apart_on(lower@, upper@, keys@, axis as nat)) by {
            assert forall|p: usize, q: usize| lower@.contains(p) && upper@.contains(q) implies key_on(
                keys@[p as int],
                axis as nat,
            ) <= key_on(keys@[q as int], axis as nat) by {
                let i = choose|i: int| 0 <= i < lower@.len() && lower@[i] == p;
                let j = choose|j: int| 0 <= j < upper@.len() && upper@[j] == q;
                assert(sorted[i] == p);
                assert(sorted[n / 2 + j] == q);
            }
        }
        let ghost lower_s = lower@;
        let ghost upper_s = upper@;
        let (lb, a, b, mut lu) = build(lower, bounds, keys, join);
        let (rb, c, d, mut ru) = build(upper, bounds, keys, join);
        let l = BvhNode::Branch(lb, Box::new(a), Box::new(b));
        let r = BvhNode::Branch(rb, Box::new(c), Box::new(d));
        proof {
            assert(leaves(l) == leaves(a) + leaves(b));
            assert(leaves(r) == leaves(c) + leaves(d));
            lemma_apart_by_multiset(lower_s, upper_s, leaves(l), leaves(r), keys@, axis as nat);
            assert(apart_on(leaves(l), leaves(r), keys@, axis as nat));
            assert(leaves(l).to_multiset().len() == lower_s.to_multiset().len());
            assert(leaves(r).to_multiset().len() == upper_s.to_multiset().len());
            assert forall|j: JoinFn<B>| computes_join(*join, j) implies #[trigger] bounds_cached(
                j,
                bounds@,
                l,
            ) && bounds_cached(j, bounds@, r) by {
                assert(bounds_cached(j, bounds@, BvhNode::Branch(lb, Box::new(a), Box::new(b))));
                assert(bounds_cached(j, bounds@, BvhNode::Branch(rb, Box::new(c), Box::new(d))));
            }
        }
        lu.append(&mut ru);
        under = lu;
        assert(under@ =~= leaves(l) + leaves(r));
        (l, r)
    };
    proof {
        assert(in_range(under@, bounds@.len())) by {
            assert forall|i: int| 0 <= i < under@.len() implies under@[i] < bounds@.len() by {
                let v = under@[i];
                assert(under@[i] == v);
                assert((leaves(left) + leaves(right)).contains(v));
                vstd::seq_lib::to_multiset_contains(leaves(left) + leaves(right), v);
                vstd::seq_lib::to_multiset_contains(items@, v);
            }
        }
    }
    let whole = bounds_of(&under, bounds, join);
    proof {
        let node = BvhNode::Branch(whole, Box::new(left), Box::new(right));
        assert forall|j: JoinFn<B>| computes_join(*join, j) implies #[trigger] bounds_cached(
            j,
            bounds@,
            node,
        ) by {
            assert(whole == fold_bounds(j, bounds@, under@));
            assert(leaves(node) == under@);
            assert(bounds_cached(j, bounds@, left));
            assert(bounds_cached(j, bounds@, right));
        }
    }
    (whole, left, right, under)
}

impl<B> BVH<B> {
    /// The root as a node.
    pub open spec fn root(self) -> BvhNode<B> {
        BvhNode::Branch(self.bounds, Box::new(self.left), Box::new(self.right))
    }

    /// The primitives of the hierarchy, left to right.
    pub open spec fn leaves(self) -> Seq<usize> {
        leaves(self.left) + leaves(self.right)
    }
}

impl<B: Copy> BVH<B> {
    /// Builds a hierarchy over the primitives `0..keys.len()` (at least
    /// one), primitive `i` having the bounds `bounds[i]` and the order keys
    /// `keys[i]`; `join` joins two bounds. Each primitive stands in exactly
    /// one leaf, every node follows the median-split rule along an axis
    /// drawn at random, and every inner node, the root included, caches the
    /// join of the bounds of the primitives under it, left to right.
    pub fn new<F: Fn(&B, &B) -> B>(bounds: &Vec<B>, keys: &Vec<SortKey>, join: &F) -> (r: BVH<B>)
        requires
            keys@.len() >= 1,
            bounds@.len() == keys@.len(),
            join_callable(*join),
        ensures
            r.leaves().to_multiset() == indices(keys@.len()).to_multiset(),
            split_rule(r.root(), keys@),
            forall|j: JoinFn<B>|
                computes_join(*join, j) ==> #[trigger] bounds_cached(j, bounds@, r.root()),
    {
        let mut items: Vec<usize> = Vec::new();
        let mut i: usize = 0;
        while i < keys.len()
            invariant
                i <= keys@.len(),
                items@ == indices(i as nat),
            decreases keys@.len() - i,
        {
            items.push(i);
            i = i + 1;
            assert(items@ =~= indices(i as nat));
        }
        let (whole, left, right, _) = build(items, bounds, keys, join);
        BVH { left, right, bounds: whole }
    }
}

} // verus!
