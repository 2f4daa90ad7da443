use crate::hex::Hex;
use std::collections::HashMap;
use vstd::prelude::*;

verus! {

broadcast use vstd::std_specs::hash::group_hash_axioms;

/// An integer that tells apart the cells of one grid: the bucket `(x, y)`
/// packed into one number.
pub open spec fn cell_key(h: Hex) -> int {
    h.x * 4294967296 + (h.y - i32::MIN)
}

/// Cells of one grid with the same key are the same cell.
pub proof fn lemma_cell_key_injective(a: Hex, b: Hex)
    requires
        cell_key(a) == cell_key(b),
    ensures
        a.x == b.x,
        a.y == b.y,
{
    let ya: int = a.y - i32::MIN;
    let yb: int = b.y - i32::MIN;
    let dx: int = a.x - b.x;
    assert(dx * 4294967296 == yb - ya);
    assert(dx == 0) by (nonlinear_arith)
        requires
            dx * 4294967296 == yb - ya,
            0 <= ya < 4294967296,
            0 <= yb < 4294967296,
    ;
}

pub(crate) fn cell_key_of(h: &Hex) -> (k: i64)
    ensures
        k as int == cell_key(*h),
{
    (h.x as i64) * 4294967296 + (h.y as i64 - i32::MIN as i64)
}

/// Whether following parent links from node `i` ends at the root, node 0,
/// every link leading to an earlier node.
pub open spec fn reaches_root(parents: Seq<usize>, i: int) -> bool
    decreases i,
{
    if i <= 0 {
        i == 0
    } else if parents[i] < i {
        reaches_root(parents, parents[i] as int)
    } else {
        false
    }
}

/// A rooted tree of cells of one grid. Nodes are kept in insertion order;
/// node 0 is the root and every other node records the index of its parent,
/// which was inserted before it.
pub struct HexTree {
    nodes: Vec<Hex>,
    parents: Vec<usize>,
    index: HashMap<i64, usize>,
}

impl HexTree {
    /// The cells of the tree, in insertion order.
    pub closed spec fn nodes(&self) -> Seq<Hex> {
        self.nodes@
    }

    /// For each node, the index of its parent; the root is its own parent.
    pub closed spec fn parents(&self) -> Seq<usize> {
        self.parents@
    }

    /// The lookup table maps the key of each node to its position, and
    /// holds nothing else.
    pub closed spec fn index_ok(&self) -> bool {
        &&& forall|i: int|
            0 <= i < self.nodes@.len() ==> #[trigger] self.index@.contains_key(
                cell_key(self.nodes@[i]) as i64,
            ) && self.index@[cell_key(self.nodes@[i]) as i64] == i
        &&& forall|k: i64| #[trigger]
            self.index@.contains_key(k) ==> self.index@[k] < self.nodes@.len() && cell_key(
                self.nodes@[self.index@[k] as int],
            ) == k
    }

    pub open spec fn wf(&self) -> bool {
        &&& self.parents().len() == self.nodes().len()
        &&& self.nodes().no_duplicates()
        &&& forall|i: int| 0 < i < self.nodes().len() ==> #[trigger] self.parents()[i] < i
        &&& self.nodes().len() > 0 ==> self.parents()[0] == 0
        &&& forall|i: int|
            0 <= i < self.nodes().len() ==> (#[trigger] self.nodes()[i]).size
                == self.nodes()[0].size
        &&& self.index_ok()
    }

    /// The parent of `h`, or `None` for the root and for cells outside the tree.
    pub open spec fn parent_spec(&self, h: Hex) -> Option<Hex> {
        if self.nodes().contains(h) && self.nodes().index_of(h) > 0 {
            Some(self.nodes()[self.parents()[self.nodes().index_of(h)] as int])
        } else {
            None
        }
    }

    pub fn new() -> (r: Self)
        ensures
            r.wf(),
            r.nodes() == Seq::<Hex>::empty(),
    {
        HexTree { nodes: Vec::new(), parents: Vec::new(), index: HashMap::new() }
    }

    /// An empty tree with room reserved for `capacity` cells.
    pub fn with_capacity(capacity: usize) -> (r: Self)
        ensures
            r.wf(),
            r.nodes() == Seq::<Hex>::empty(),
    {
        HexTree {
            nodes: Vec::with_capacity(capacity),
            parents: Vec::with_capacity(capacity),
            index: HashMap::with_capacity(capacity),
        }
    }

    pub fn len(&self) -> (r: usize)
        requires
            self.wf(),
        ensures
            r == self.nodes().len(),
    {
        self.nodes.len()
    }

    pub fn is_empty(&self) -> (r: bool)
        requires
            self.wf(),
        ensures
            r == (self.nodes().len() == 0),
    {
        self.nodes.len() == 0
    }

    /// The cells of the tree, in insertion order; the root comes first.
    pub fn hexes(&self) -> (r: &Vec<Hex>)
        ensures
            r@ == self.nodes(),
    {
        &self.nodes
    }

    pub fn root(&self) -> (r: Option<Hex>)
        requires
            self.wf(),
        ensures
            r == if self.nodes().len() == 0 {
                None
            } else {
                Some(self.nodes()[0])
            },
    {
        if self.nodes.len() == 0 {
            None
        } else {
            Some(self.nodes[0])
        }
    }

    /// Position of a cell of the tree in the insertion order.
    fn position(&self, h: &Hex) -> (r: Option<usize>)
        requires
            self.wf(),
        ensures
            match r {
                Some(i) => i < self.nodes().len() && self.nodes()[i as int] == *h,
                None => !self.nodes().contains(*h),
            },
    {
        if self.nodes.len() == 0 {
            return None;
        }
        if self.nodes[0].size != h.size {
            assert(!self.nodes().contains(*h)) by {
                if self.nodes().contains(*h) {
                    let j = choose|j: int| 0 <= j < self.nodes().len() && self.nodes()[j] == *h;
                    assert(self.nodes()[j].size == self.nodes()[0].size);
                }
            }
            return None;
        }
        let k = cell_key_of(h);
        match self.index.get(&k) {
            Some(i) => {
                let i = *i;
                proof {
                    let n = self.nodes()[i as int];
                    lemma_cell_key_injective(n, *h);
                    assert(n.size == self.nodes()[0].size);
                }
                Some(i)
            },
            None => {
                assert(!self.nodes().contains(*h)) by {
                    if self.nodes().contains(*h) {
                        let j = choose|j: int| 0 <= j < self.nodes().len() && self.nodes()[j] == *h;
                        assert(self.index@.contains_key(cell_key(self.nodes@[j]) as i64));
                    }
                }
                None
            },
        }
    }

    pub fn contains(&self, h: &Hex) -> (r: bool)
        requires
            self.wf(),
        ensures
            r == self.nodes().contains(*h),
    {
        match self.position(h) {
            Some(_) => true,
            None => false,
        }
    }

    /// The parent of `h`: `None` for the root and for a cell outside the tree.
    pub fn parent(&self, h: &Hex) -> (r: Option<Hex>)
        requires
            self.wf(),
        ensures
            r == self.parent_spec(*h),
    {
        match self.position(h) {
            Some(i) => {
                proof {
                    self.nodes().index_of_first_ensures(*h);
                    assert(self.nodes().contains(*h));
                    let j = self.nodes().index_of(*h);
                    assert(self.nodes()[j] == *h);
                    assert(j == i as int);
                }
                if i == 0 {
                    None
                } else {
                    Some(self.nodes[self.parents[i]])
                }
            },
            None => None,
        }
    }

    /// Makes `h` the root of an empty tree.
    pub fn reset_root(&mut self, h: Hex)
        requires
            old(self).wf(),
            old(self).nodes().len() == 0,
        ensures
            final(self).wf(),
            final(self).nodes() == seq![h],
            final(self).parents() == seq![0usize],
    {
        let k = cell_key_of(&h);
        self.nodes.push(h);
        self.parents.push(0);
        self.index.insert(k, 0);
        assert(self.nodes() =~= seq![h]);
        assert(self.parents() =~= seq![0usize]);
    }

    /// Adds `h` as a new child of `parent`, which is in the tree.
    pub fn insert(&mut self, h: Hex, parent: &Hex)
        requires
            old(self).wf(),
            !old(self).nodes().contains(h),
            old(self).nodes().contains(*parent),
            h.size == parent.size,
        ensures
            final(self).wf(),
            final(self).nodes() == old(self).nodes().push(h),
            final(self).parents() == old(self).parents().push(final(self).parents().last()),
            old(self).nodes()[final(self).parents().last() as int] == *parent,
    {
        let pi = match self.position(parent) {
            Some(i) => i,
            None => {
                assert(false);
                0
            },
        };
        let n = self.nodes.len();
        let k = cell_key_of(&h);
        proof {
            assert(self.nodes()[pi as int].size == self.nodes()[0].size);
            if self.index@.contains_key(k) {
                let j = self.index@[k] as int;
                lemma_cell_key_injective(self.nodes@[j], h);
                assert(self.nodes@[j].size == self.nodes()[0].size);
                assert(self.nodes@[j] == h);
            }
        }
        self.nodes.push(h);
        self.parents.push(pi);
        self.index.insert(k, n);
        proof {
            let ns = self.nodes();
            assert(ns.last() == h);
            assert forall|i: int| 0 <= i < ns.len() implies #[trigger] self.index@.contains_key(
                cell_key(ns[i]) as i64,
            ) && self.index@[cell_key(ns[i]) as i64] == i by {
                if i < n as int {
                    assert(ns[i] == old(self).nodes()[i]);
                    assert(ns[i] != h);
                    if cell_key(ns[i]) as i64 == k {
                        lemma_cell_key_injective(ns[i], h);
                    }
                }
            }
            assert(self.index_ok());
            assert(self.parents().last() == pi);
            assert(self.parents() =~= old(self).parents().push(pi));
        }
    }
}

/// Every node of a tree reaches the root by following parent links: the
/// tree is connected.
pub proof fn lemma_connected(t: &HexTree, i: int)
    requires
        t.wf(),
        0 <= i < t.nodes().len(),
    ensures
        reaches_root(t.parents(), i),
    decreases i,
{
    if i > 0 {
        assert(t.parents()[i] < i);
        lemma_connected(t, t.parents()[i] as int);
    }
}

} // verus!
