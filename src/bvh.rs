//! Shape of the bounding volume hierarchy over a scene's surfaces.
//!
//! Surfaces are named by their index in the scene list. What the hierarchy
//! reads of each surface is the minimum corner of its bounding box, one `f32`
//! coordinate per axis, handed over as the coordinate's IEEE-754 bit pattern.
use vstd::prelude::*;
use crate::random::random_axis;

verus! {

broadcast use vstd::seq_lib::group_to_multiset_ensures;

/// Position of an `f32` along its axis, read from its bit pattern: the
/// sign-magnitude integer that the bits spell. For every pair of non-NaN
/// floats this orders them as their values do (both zeros count as 0).
pub open spec fn coord_value(bits: u32) -> int {
    if bits >= 0x8000_0000 {
        0x8000_0000 - bits
    } else {
        bits as int
    }
}

/// The unsigned key that sorting compares: the bit pattern with negative
/// values mirrored below the positive ones.
pub open spec fn order_key(bits: u32) -> int {
    if bits >= 0x8000_0000 {
        0xffff_ffff - bits
    } else {
        bits + 0x8000_0000
    }
}

/// Where surface `i` begins along `axis`.
pub open spec fn min_along(minima: Seq<[u32; 3]>, i: usize, axis: usize) -> int {
    coord_value(minima[i as int][axis as int])
}

/// The key by which surface `i` is sorted along `axis`.
pub open spec fn key_along(minima: Seq<[u32; 3]>, i: usize, axis: usize) -> int {
    order_key(minima[i as int][axis as int])
}

/// Keys order coordinates exactly as their positions do, except that the
/// negative zero sorts just before the positive one.
pub proof fn lemma_key_orders_coords(a: u32, b: u32)
    ensures
        order_key(a) <= order_key(b) ==> coord_value(a) <= coord_value(b),
        coord_value(a) < coord_value(b) ==> order_key(a) < order_key(b),
        order_key(a) == order_key(b) <==> a == b,
{
}

/// `pos` takes each place of `sorted` to a distinct place of `items` that
/// holds the same surface, and surfaces with equal keys keep the order in
/// which `items` holds them.
pub open spec fn keeps_ties_in_order(
    items: Seq<usize>,
    sorted: Seq<usize>,
    pos: Seq<int>,
    minima: Seq<[u32; 3]>,
    axis: usize,
) -> bool {
    &&& pos.len() == sorted.len()
    &&& forall|k: int|
        0 <= k < sorted.len() ==> 0 <= #[trigger] pos[k] < items.len() && items[pos[k]]
            == sorted[k]
    &&& forall|p: int, q: int|
        0 <= p < sorted.len() && 0 <= q < sorted.len() && p != q ==> #[trigger] pos[p]
            != #[trigger] pos[q]
    &&& forall|p: int, q: int|
        0 <= p < q < sorted.len() && key_along(minima, sorted[p], axis) == key_along(
            minima,
            sorted[q],
            axis,
        ) ==> #[trigger] pos[p] < #[trigger] pos[q]
}

/// Computes `order_key` of a coordinate's bits.
pub fn coord_key(bits: u32) -> (k: u32)
    ensures
        k == order_key(bits),
{
    if bits >= 0x8000_0000 {
        0xffff_ffff - bits
    } else {
        bits + 0x8000_0000
    }
}

/// The surfaces `items` ordered along `axis` by the minimum of their boxes,
/// as a stable sort by `order_key`: surfaces with equal keys keep their
/// relative order.
pub fn sort_along(items: &Vec<usize>, minima: &Vec<[u32; 3]>, axis: usize) -> (sorted: Vec<usize>)
    requires
        axis < 3,
        forall|k: int| 0 <= k < items.len() ==> #[trigger] items@[k] < minima.len(),
    ensures
        sorted@.to_multiset() == items@.to_multiset(),
        forall|k: int| 0 <= k < sorted.len() ==> #[trigger] sorted@[k] < minima.len(),
        forall|p: int, q: int|
            0 <= p < q < sorted.len() ==> key_along(minima@, #[trigger] sorted@[p], axis)
                <= key_along(minima@, #[trigger] sorted@[q], axis),
        forall|p: int, q: int|
            0 <= p < q < sorted.len() ==> min_along(minima@, #[trigger] sorted@[p], axis)
                <= min_along(minima@, #[trigger] sorted@[q], axis),
        exists|pos: Seq<int>| keeps_ties_in_order(items@, sorted@, pos, minima@, axis),
{
    let mut sorted: Vec<usize> = Vec::new();
    let ghost mut pos: Seq<int> = Seq::empty();
    let mut i: usize = 0;
    while i < items.len()
        invariant
            i <= items.len(),
            axis < 3,
            forall|k: int| 0 <= k < items.len() ==> #[trigger] items@[k] < minima.len(),
            sorted@.to_multiset() == items@.subrange(0, i as int).to_multiset(),
            forall|k: int| 0 <= k < sorted.len() ==> #[trigger] sorted@[k] < minima.len(),
            forall|p: int, q: int|
                0 <= p < q < sorted.len() ==> key_along(minima@, #[trigger] sorted@[p], axis)
                    <= key_along(minima@, #[trigger] sorted@[q], axis),
            keeps_ties_in_order(items@, sorted@, pos, minima@, axis),
            forall|k: int| 0 <= k < pos.len() ==> #[trigger] pos[k] < i,
        decreases items.len() - i,
    {
        let x = items[i];
        let kx = coord_key(minima[x][axis]);
        let mut j: usize = 0;
        while j < sorted.len() && coord_key(minima[sorted[j]][axis]) <= kx
            invariant
                j <= sorted.len(),
                axis < 3,
                forall|k: int| 0 <= k < sorted.len() ==> #[trigger] sorted@[k] < minima.len(),
                forall|p: int| 0 <= p < j ==> key_along(minima@, #[trigger] sorted@[p], axis) <= kx,
            decreases sorted.len() - j,
        {
            j = j + 1;
        }
        proof {
            assert(items@.subrange(0, i + 1) =~= items@.subrange(0, i as int).push(x));
            vstd::seq_lib::to_multiset_insert(sorted@, j as int, x);
        }
        let ghost old_sorted = sorted@;
        let ghost old_pos = pos;
        sorted.insert(j, x);
        proof {
            pos = pos.insert(j as int, i as int);
            assert forall|p: int, q: int|
                0 <= p < q < sorted.len() && key_along(minima@, sorted@[p], axis) == key_along(
                    minima@,
                    sorted@[q],
                    axis,
                ) implies #[trigger] pos[p] < #[trigger] pos[q] by {
                if p < j && q > j {
                    assert(sorted@[p] == old_sorted[p]);
                    assert(sorted@[q] == old_sorted[q - 1]);
                } else if p > j {
                    assert(sorted@[p] == old_sorted[p - 1]);
                    assert(sorted@[q] == old_sorted[q - 1]);
                } else if q < j {
                } else if p == j {
                    assert(sorted@[q] == old_sorted[q - 1]);
                    if j < old_sorted.len() {
                        assert(key_along(minima@, old_sorted[j as int], axis) > kx);
                        if q - 1 > j {
                            assert(key_along(minima@, old_sorted[j as int], axis) <= key_along(
                                minima@,
                                old_sorted[q - 1],
                                axis,
                            ));
                        }
                    }
                } else {
                    assert(sorted@[p] == old_sorted[p]);
                }
            }
        }
        i = i + 1;
    }
    proof {
        assert(items@.subrange(0, items.len() as int) =~= items@);
        assert(keeps_ties_in_order(items@, sorted@, pos, minima@, axis));
        assert forall|p: int, q: int| 0 <= p < q < sorted.len() implies
            min_along(minima@, #[trigger] sorted@[p], axis)
                <= min_along(minima@, #[trigger] sorted@[q], axis) by {
            lemma_key_orders_coords(minima@[sorted@[p] as int][axis as int],
                minima@[sorted@[q] as int][axis as int]);
        }
    }
    sorted
}

/// A node of the hierarchy. The root and every inner node is a `Split`;
/// a `Surface` names a scene surface by its index.
#[derive(Debug, PartialEq, Eq)]
pub enum BvhTree {
    Surface(usize),
    Split { axis: usize, left: Box<BvhTree>, right: Box<BvhTree> },
}

impl BvhTree {
    /// The surfaces below this node from left to right. A node whose two
    /// children are one and the same surface holds that surface once.
    pub open spec fn surfaces(self) -> Seq<usize>
        decreases self,
    {
        match self {
            BvhTree::Surface(i) => seq![i],
            BvhTree::Split { axis, left, right } => {
                if left == right && *left is Surface {
                    left.surfaces()
                } else {
                    left.surfaces() + right.surfaces()
                }
            },
        }
    }

    /// Every node is a median split along its own axis: one surface sits
    /// twice under a node of its own, two surfaces sit one per side in the
    /// order of their box minima, and more are cut into halves of
    /// `n / 2` and `n - n / 2` surfaces, each built in the same way, where
    /// no surface of the first half begins further along the axis than any
    /// surface of the second.
    pub open spec fn is_median_split(self, minima: Seq<[u32; 3]>) -> bool
        decreases self,
    {
        match self {
            BvhTree::Surface(_) => false,
            BvhTree::Split { axis, left, right } => {
                &&& axis < 3
                &&& match (*left, *right) {
                    (BvhTree::Surface(a), BvhTree::Surface(b)) => a == b || min_along(
                        minima,
                        a,
                        axis,
                    ) <= min_along(minima, b, axis),
                    (BvhTree::Split { .. }, BvhTree::Split { .. }) => {
                        let l = left.surfaces();
                        let r = right.surfaces();
                        &&& l.len() + r.len() >= 3
                        &&& l.len() == (l.len() + r.len()) / 2
                        &&& forall|x: usize, y: usize|
                            l.contains(x) && r.contains(y) ==> min_along(minima, x, axis)
                                <= min_along(minima, y, axis)
                        &&& left.is_median_split(minima)
                        &&& right.is_median_split(minima)
                    },
                    _ => false,
                }
            },
        }
    }
}

impl BvhTree {
    /// Builds the hierarchy over the surfaces `0 .. minima.len()`, where
    /// `minima[i][a]` is the bit pattern of the minimum on axis `a` of
    /// surface `i`'s bounding box. Each node draws its axis from `rng`.
    /// Every surface appears in the tree exactly once.
    pub fn build(minima: &Vec<[u32; 3]>, rng: &mut rand::rngs::StdRng) -> (tree: BvhTree)
        requires
            minima.len() >= 1,
        ensures
            tree is Split,
            tree.is_median_split(minima@),
            tree.surfaces().len() == minima.len(),
            tree.surfaces().no_duplicates(),
            forall|k: int| 0 <= k < minima.len() ==> #[trigger] tree.surfaces()[k] < minima.len(),
    {
        let mut items: Vec<usize> = Vec::new();
        let mut i: usize = 0;
        while i < minima.len()
            invariant
                i <= minima.len(),
                items@ == Seq::new(i as nat, |k: int| k as usize),
            decreases minima.len() - i,
        {
            items.push(i);
            i = i + 1;
            proof {
                assert(items@ =~= Seq::new(i as nat, |k: int| k as usize));
            }
        }
        let tree = build_over(&items, minima, rng);
        proof {
            let s = tree.surfaces();
            items@.lemma_multiset_has_no_duplicates();
            s.lemma_multiset_has_no_duplicates_conv();
            assert(s.len() == s.to_multiset().len());
            assert forall|k: int| 0 <= k < minima.len() implies #[trigger] s[k] < minima.len() by {
                assert(s.to_multiset().count(s[k]) > 0);
                assert(items@.contains(s[k]));
            }
        }
        tree
    }
}

/// Builds the hierarchy over the surfaces `items`: draws an axis, orders
/// the surfaces along it, and splits them at the middle.
fn build_over(items: &Vec<usize>, minima: &Vec<[u32; 3]>, rng: &mut rand::rngs::StdRng) -> (tree:
    BvhTree)
    requires
        items.len() >= 1,
        items@.no_duplicates(),
        forall|k: int| 0 <= k < items.len() ==> #[trigger] items@[k] < minima.len(),
    ensures
        tree.is_median_split(minima@),
        tree.surfaces().to_multiset() == items@.to_multiset(),
    decreases items.len(),
{
    let axis = random_axis(rng);
    let sorted = sort_along(items, minima, axis);
    proof {
        items@.lemma_multiset_has_no_duplicates();
        sorted@.lemma_multiset_has_no_duplicates_conv();
        assert(sorted@.len() == sorted@.to_multiset().len());
        assert(items@.len() == items@.to_multiset().len());
    }
    let n = sorted.len();
    if n == 1 {
        let a = sorted[0];
        let tree = BvhTree::Split {
            axis,
            left: Box::new(BvhTree::Surface(a)),
            right: Box::new(BvhTree::Surface(a)),
        };
        proof {
            assert(sorted@ =~= seq![a]);
            assert(BvhTree::Surface(a).surfaces() == seq![a]);
            assert(tree.surfaces() == seq![a]);
        }
        tree
    } else if n == 2 {
        let a = sorted[0];
        let b = sorted[1];
        let tree = BvhTree::Split {
            axis,
            left: Box::new(BvhTree::Surface(a)),
            right: Box::new(BvhTree::Surface(b)),
        };
        proof {
            assert(a != b);
            assert(seq![a] + seq![b] =~= sorted@);
            assert(BvhTree::Surface(a).surfaces() == seq![a]);
            assert(BvhTree::Surface(b).surfaces() == seq![b]);
            assert(tree.surfaces() == seq![a] + seq![b]);
        }
        tree
    } else {
        let mid = n / 2;
        let mut lower = sorted;
        let upper = lower.split_off(mid);
        proof {
            assert(sorted@ =~= lower@ + upper@);
            vstd::seq_lib::lemma_multiset_commutative(lower@, upper@);
        }
        let left = build_over(&lower, minima, rng);
        let right = build_over(&upper, minima, rng);
        proof {
            let l = left.surfaces();
            let r = right.surfaces();
            assert forall|x: usize, y: usize| l.contains(x) && r.contains(y) implies
                min_along(minima@, x, axis) <= min_along(minima@, y, axis) by {
                assert(l.to_multiset().count(x) > 0);
                assert(r.to_multiset().count(y) > 0);
                assert(lower@.contains(x));
                assert(upper@.contains(y));
                let p = choose|p: int| 0 <= p < lower.len() && lower@[p] == x;
                let q = choose|q: int| 0 <= q < upper.len() && upper@[q] == y;
                assert(sorted@[p] == x);
                assert(sorted@[mid + q] == y);
            }
            assert(left is Split);
            vstd::seq_lib::lemma_multiset_commutative(l, r);
            assert(l.len() == lower.len());
            assert(r.len() == upper.len());
        }
        BvhTree::Split { axis, left: Box::new(left), right: Box::new(right) }
    }
}

} // verus!
