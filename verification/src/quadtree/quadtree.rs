//! A tree whose inner nodes have four children and whose leaves carry labels.
use super::compression::{
    bl, block_ends_fit, br, quadrant_bl, quadrant_br, quadrant_tl, quadrant_tr, tl, tr,
};
use crate::prelude::RangeBlockLocation;
use vstd::prelude::*;

verus! {

/// A quadtree: a leaf with a label, or a node with four subtrees, in the
/// order top-left, top-right, bottom-left, bottom-right.
#[derive(Debug, PartialEq, Eq)]
pub enum Quadtree<T> {
    Leaf(T),
    Node(Box<Quadtree<T>>, Box<Quadtree<T>>, Box<Quadtree<T>>, Box<Quadtree<T>>),
}

impl<T> Quadtree<T> {
    /// The labels of the leaves, left to right.
    pub open spec fn leaves(self) -> Seq<T>
        decreases self,
    {
        match self {
            Quadtree::Leaf(t) => seq![t],
            Quadtree::Node(a, b, c, d) => a.leaves() + b.leaves() + c.leaves() + d.leaves(),
        }
    }

    /// The number of node levels below the root.
    pub open spec fn height(self) -> nat
        decreases self,
    {
        match self {
            Quadtree::Leaf(_) => 0,
            Quadtree::Node(a, b, c, d) => {
                let ha = a.height();
                let hb = b.height();
                let hc = c.height();
                let hd = d.height();
                let m1 = if ha >= hb {
                    ha
                } else {
                    hb
                };
                let m2 = if hc >= hd {
                    hc
                } else {
                    hd
                };
                1 + if m1 >= m2 {
                    m1
                } else {
                    m2
                }
            },
        }
    }

    /// The blocks that the leaves cover when the root covers `rb` and every
    /// node is cut into its quadrants, left to right.
    pub open spec fn leaf_blocks(self, rb: RangeBlockLocation) -> Seq<RangeBlockLocation>
        decreases self,
    {
        match self {
            Quadtree::Leaf(_) => seq![rb],
            Quadtree::Node(a, b, c, d) => a.leaf_blocks(quadrant_tl(rb)) + b.leaf_blocks(
                quadrant_tr(rb),
            ) + c.leaf_blocks(quadrant_bl(rb)) + d.leaf_blocks(quadrant_br(rb)),
        }
    }

    /// Two trees with nodes and leaves in the same places.
    pub open spec fn same_shape<Q>(self, other: Quadtree<Q>) -> bool
        decreases self,
    {
        match (self, other) {
            (Quadtree::Leaf(_), Quadtree::Leaf(_)) => true,
            (Quadtree::Node(a, b, c, d), Quadtree::Node(a2, b2, c2, d2)) => {
                &&& a.same_shape(*a2)
                &&& b.same_shape(*b2)
                &&& c.same_shape(*c2)
                &&& d.same_shape(*d2)
            },
            _ => false,
        }
    }
}

/// A tree with the same shape has as many leaves.
pub proof fn lemma_same_shape_leaves<T, Q>(t: Quadtree<T>, q: Quadtree<Q>)
    requires
        t.same_shape(q),
    ensures
        t.leaves().len() == q.leaves().len(),
    decreases t,
{
    match (t, q) {
        (Quadtree::Node(a, b, c, d), Quadtree::Node(a2, b2, c2, d2)) => {
            lemma_same_shape_leaves(*a, *a2);
            lemma_same_shape_leaves(*b, *b2);
            lemma_same_shape_leaves(*c, *c2);
            lemma_same_shape_leaves(*d, *d2);
        },
        _ => {},
    }
}

/// A tree has as many leaf blocks as leaves.
pub proof fn lemma_leaf_blocks_len<T>(t: Quadtree<T>, rb: RangeBlockLocation)
    ensures
        t.leaf_blocks(rb).len() == t.leaves().len(),
    decreases t,
{
    match t {
        Quadtree::Node(a, b, c, d) => {
            lemma_leaf_blocks_len(*a, quadrant_tl(rb));
            lemma_leaf_blocks_len(*b, quadrant_tr(rb));
            lemma_leaf_blocks_len(*c, quadrant_bl(rb));
            lemma_leaf_blocks_len(*d, quadrant_br(rb));
        },
        _ => {},
    }
}

impl<T: Copy> Quadtree<T> {
    /// A leaf labelled `label`.
    pub fn leaf(label: T) -> (r: Self)
        ensures
            r == Quadtree::Leaf(label),
    {
        Quadtree::Leaf(label)
    }

    /// A node with the four given subtrees.
    pub fn node(c1: Quadtree<T>, c2: Quadtree<T>, c3: Quadtree<T>, c4: Quadtree<T>) -> (r: Self)
        ensures
            r == Quadtree::Node(Box::new(c1), Box::new(c2), Box::new(c3), Box::new(c4)),
    {
        Quadtree::Node(Box::new(c1), Box::new(c2), Box::new(c3), Box::new(c4))
    }

    /// Whether the tree is a leaf.
    pub fn is_leaf(&self) -> (r: bool)
        ensures
            r == (*self is Leaf),
    {
        match self {
            Quadtree::Leaf(_) => true,
            Quadtree::Node(..) => false,
        }
    }

    /// Whether the tree is a node.
    pub fn is_node(&self) -> (r: bool)
        ensures
            r == (*self is Node),
    {
        match self {
            Quadtree::Leaf(_) => false,
            Quadtree::Node(..) => true,
        }
    }

    /// Appends the labels of the leaves to `v`, left to right.
    fn prefix_leaves_aux(&self, v: &mut Vec<T>)
        ensures
            final(v)@ == old(v)@ + self.leaves(),
        decreases self,
    {
        match self {
            Quadtree::Node(a, b, c, d) => {
                a.prefix_leaves_aux(v);
                b.prefix_leaves_aux(v);
                c.prefix_leaves_aux(v);
                d.prefix_leaves_aux(v);
                assert(v@ =~= old(v)@ + self.leaves());
            },
            Quadtree::Leaf(label) => {
                v.push(*label);
                assert(v@ =~= old(v)@ + self.leaves());
            },
        }
    }

    /// The labels of the leaves, left to right.
    pub fn prefix_leaves(&self) -> (v: Vec<T>)
        ensures
            v@ == self.leaves(),
    {
        let mut v = Vec::new();
        self.prefix_leaves_aux(&mut v);
        assert(v@ =~= self.leaves());
        v
    }

    /// A tree of the same shape whose leaves carry `f(label, block)`, where
    /// `block` is the block the leaf covers when the root covers `rb` and
    /// every node is cut into its quadrants.
    pub fn mapi<Q: Copy, F: Fn(T, RangeBlockLocation) -> Q>(
        &self,
        f: &F,
        rb: RangeBlockLocation,
    ) -> (r: Quadtree<Q>)
        requires
            block_ends_fit(rb),
            forall|t: T, b: RangeBlockLocation| f.requires((t, b)),
        ensures
            self.same_shape(r),
            r.leaves().len() == self.leaves().len(),
            forall|k: int|
                0 <= k < self.leaves().len() ==> f.ensures(
                    (self.leaves()[k], self.leaf_blocks(rb)[k]),
                    #[trigger] r.leaves()[k],
                ),
        decreases self,
    {
        match self {
            Quadtree::Node(a, b, c, d) => {
                let ra = a.mapi(f, tl(rb));
                let rb2 = b.mapi(f, tr(rb));
                let rc = c.mapi(f, bl(rb));
                let rd = d.mapi(f, br(rb));
                let r = Quadtree::node(ra, rb2, rc, rd);
                proof {
                    let la = a.leaves().len();
                    let lb = b.leaves().len();
                    let lc = c.leaves().len();
                    lemma_leaf_blocks_len(**a, quadrant_tl(rb));
                    lemma_leaf_blocks_len(**b, quadrant_tr(rb));
                    lemma_leaf_blocks_len(**c, quadrant_bl(rb));
                    lemma_leaf_blocks_len(**d, quadrant_br(rb));
                    assert forall|k: int| 0 <= k < self.leaves().len() implies f.ensures(
                        (self.leaves()[k], self.leaf_blocks(rb)[k]),
                        #[trigger] r.leaves()[k],
                    ) by {
                        if k < la {
                            assert(r.leaves()[k] == ra.leaves()[k]);
                        } else if k < la + lb {
                            assert(r.leaves()[k] == rb2.leaves()[k - la]);
                        } else if k < la + lb + lc {
                            assert(r.leaves()[k] == rc.leaves()[k - la - lb]);
                        } else {
                            assert(r.leaves()[k] == rd.leaves()[k - la - lb - lc]);
                        }
                    }
                }
                r
            },
            Quadtree::Leaf(label) => Quadtree::leaf(f(*label, rb)),
        }
    }
}

impl<T: Copy> Clone for Quadtree<T> {
    fn clone(&self) -> (r: Self)
        ensures
            r == *self,
        decreases self,
    {
        match self {
            Quadtree::Leaf(t) => Quadtree::Leaf(*t),
            Quadtree::Node(a, b, c, d) => Quadtree::Node(
                Box::new(Quadtree::clone(&**a)),
                Box::new(Quadtree::clone(&**b)),
                Box::new(Quadtree::clone(&**c)),
                Box::new(Quadtree::clone(&**d)),
            ),
        }
    }
}

impl Quadtree<RangeBlockLocation> {
    /// The size of the image that the tree partitions: the size of the first
    /// leaf, doubled once per node above it.
    pub open spec fn image_size_spec(self) -> (nat, nat)
        decreases self,
    {
        match self {
            Quadtree::Leaf(b) => (b.size.0 as nat, b.size.1 as nat),
            Quadtree::Node(a, _, _, _) => {
                let (h, w) = a.image_size_spec();
                (2 * h, 2 * w)
            },
        }
    }

    /// The size of the image that the tree partitions, read from its first
    /// leaf.
    pub fn image_size(&self) -> (r: (usize, usize))
        requires
            self.image_size_spec().0 <= usize::MAX,
            self.image_size_spec().1 <= usize::MAX,
        ensures
            r.0 == self.image_size_spec().0,
            r.1 == self.image_size_spec().1,
        decreases self,
    {
        match self {
            Quadtree::Node(a, _, _, _) => {
                let (h, w) = a.image_size();
                (2 * h, 2 * w)
            },
            Quadtree::Leaf(block) => block.size,
        }
    }
}

} // verus!
