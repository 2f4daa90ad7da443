use crate::hex::{adjacent, hex_dir_at, lemma_hex_dir_index, lemma_neighbor_round_trip, Hex, HexDir, HexSize};
use crate::tree::{cell_key, cell_key_of, lemma_cell_key_injective, reaches_root, lemma_connected, HexTree};
use rand::rngs::StdRng;
use rand::Rng;
use std::collections::HashSet;
use vstd::prelude::*;

verus! {

broadcast use vstd::std_specs::hash::group_hash_axioms;

#[verifier::external_type_specification]
#[verifier::external_body]
pub struct ExStdRng(StdRng);

/// Relies on rand's `Rng::gen_range`: a draw from `[0, n)`, which panics
/// when the range is empty.
#[verifier::external_body]
fn rand_index(rng: &mut StdRng, n: usize) -> (r: usize)
    requires
        0 < n,
    ensures
        r < n,
{
    rng.gen_range(0, n)
}

/// Relies on rand's `Rng::gen_ratio`: `true` with probability
/// `numerator / denominator`, never for a zero numerator and always when
/// numerator equals denominator; it panics for a zero denominator or a
/// numerator above the denominator.
#[verifier::external_body]
fn rand_ratio(rng: &mut StdRng, numerator: u32, denominator: u32) -> (r: bool)
    requires
        0 < denominator,
        numerator <= denominator,
    ensures
        numerator == 0 ==> !r,
        numerator == denominator ==> r,
{
    rng.gen_ratio(numerator, denominator)
}

/// Whether `numerator / denominator` is an admissible probability of
/// forbidding a cell: in `[0, 0.9)`.
pub open spec fn forb_prob_ok(numerator: u32, denominator: u32) -> bool {
    0 < denominator && numerator * 10 < denominator * 9
}

/// Whether `h` lies within `k` steps of `s`: no step moves more than one
/// unit sideways or two units up or down.
pub open spec fn within(s: Hex, h: Hex, k: int) -> bool {
    -k <= h.x - s.x <= k && -2 * k <= h.y - s.y <= 2 * k
}

/// Checks a probability of forbidding a cell, given as a fraction.
pub fn valid_forb_prob(numerator: u32, denominator: u32) -> (r: bool)
    ensures
        r == forb_prob_ok(numerator, denominator),
{
    0 < denominator && (numerator as u64) * 10 < (denominator as u64) * 9
}

/// A cell waiting to be grown, with the cell it would hang from.
pub type ParentHex = Option<Hex>;

/// Grows a random tree of adjacent cells from a start cell, one cell at a
/// time. Each newly grown cell offers its free neighbors as candidates, and
/// forbids each of them with a fixed probability; forbidden cells are taken
/// back when no candidate is left, so growth never stalls.
pub struct RandHexTree {
    rng: StdRng,
    forb_num: u32,
    forb_den: u32,
    start: Hex,
    tree: HexTree,
    to_process: Vec<(Hex, ParentHex)>,
    forbidden: Vec<(Hex, Hex)>,
    forbidden_keys: HashSet<i64>,
}

impl RandHexTree {
    pub closed spec fn start(&self) -> Hex {
        self.start
    }

    pub closed spec fn forb_num(&self) -> u32 {
        self.forb_num
    }

    pub closed spec fn forb_den(&self) -> u32 {
        self.forb_den
    }

    /// The random generator's state.
    pub closed spec fn rng_state(&self) -> StdRng {
        self.rng
    }

    pub closed spec fn tree_view(&self) -> HexTree {
        self.tree
    }

    /// The forbidden cells, each with the cell of the tree that discovered it.
    pub closed spec fn forbidden_cells(&self) -> Seq<(Hex, Hex)> {
        self.forbidden@
    }

    /// The candidates waiting to be grown, each with its would-be parent.
    pub closed spec fn frontier(&self) -> Seq<(Hex, ParentHex)> {
        self.to_process@
    }

    /// Whether `h` is one of the forbidden cells.
    pub open spec fn is_forbidden_cell(&self, h: Hex) -> bool {
        exists|j: int| 0 <= j < self.forbidden_cells().len() && #[trigger] self.forbidden_cells()[j].0 == h
    }

    /// Whether `h` is neither in the tree nor forbidden.
    pub open spec fn is_free_cell(&self, h: Hex) -> bool {
        !self.tree_view().nodes().contains(h) && !self.is_forbidden_cell(h)
    }

    pub open spec fn size(&self) -> int {
        self.tree_view().nodes().len() as int
    }

    /// The start cell is far enough from the limits of `i32` for `n` more
    /// cells to be grown.
    pub open spec fn room_for(&self, n: int) -> bool {
        let s = self.start();
        let k = self.size() + n;
        &&& i32::MIN < s.x - k
        &&& s.x + k < i32::MAX
        &&& i32::MIN + 2 <= s.y - 2 * k
        &&& s.y + 2 * k <= i32::MAX - 2
    }

    pub closed spec fn is_forbidden_spec(&self, h: Hex) -> bool {
        exists|i: int| 0 <= i < self.forbidden@.len() && #[trigger] self.forbidden@[i].0 == h
    }

    pub closed spec fn is_queued(&self, h: Hex) -> bool {
        exists|i: int| 0 <= i < self.to_process@.len() && #[trigger] self.to_process@[i].0 == h
    }

    pub closed spec fn covered(&self, h: Hex) -> bool {
        self.tree.nodes().contains(h) || self.is_forbidden_spec(h) || self.is_queued(h)
    }

    /// The tree is well formed, holds cells of the start cell's grid near the
    /// start cell, every edge joins neighbors, and the root is the start.
    closed spec fn tree_ok(&self) -> bool {
        let ns = self.tree.nodes();
        &&& self.tree.wf()
        &&& ns.len() > 0 ==> ns[0] == self.start
        &&& forall|i: int|
            0 <= i < ns.len() ==> (#[trigger] ns[i]).size == self.start.size && within(
                self.start,
                ns[i],
                ns.len() - 1,
            )
        &&& forall|i: int|
            0 < i < ns.len() ==> adjacent(ns[self.tree.parents()[i] as int], #[trigger] ns[i])
    }

    /// Forbidden cells are distinct, outside the tree, next to the tree cell
    /// that discovered them, and mirrored by their keys.
    closed spec fn forbidden_ok(&self) -> bool {
        let fs = self.forbidden@;
        let ns = self.tree.nodes();
        &&& forall|i: int, j: int| 0 <= i < j < fs.len() ==> fs[i].0 != fs[j].0
        &&& forall|i: int|
            0 <= i < fs.len() ==> {
                &&& (#[trigger] fs[i]).0.size == self.start.size
                &&& !ns.contains(fs[i].0)
                &&& ns.contains(fs[i].1)
                &&& adjacent(fs[i].1, fs[i].0)
                &&& within(self.start, fs[i].0, ns.len() as int)
            }
        &&& keys_match(self.forbidden_keys@, fs)
        &&& self.forb_num == 0 ==> fs.len() == 0
    }

    /// Candidates are near the start cell and, once the tree has a root,
    /// each hangs from a neighboring tree cell.
    closed spec fn queue_ok(&self) -> bool {
        let ns = self.tree.nodes();
        forall|i: int|
            0 <= i < self.to_process@.len() ==> {
                &&& (#[trigger] self.to_process@[i]).0.size == self.start.size
                &&& within(self.start, self.to_process@[i].0, ns.len() as int)
                &&& ns.len() > 0 ==> {
                    &&& self.to_process@[i].1 is Some
                    &&& ns.contains(self.to_process@[i].1->0)
                    &&& adjacent(self.to_process@[i].1->0, self.to_process@[i].0)
                }
            }
    }

    /// Every neighbor of a tree cell is in the tree, forbidden, queued, or `c`.
    closed spec fn covered_but(&self, c: Option<Hex>) -> bool {
        let ns = self.tree.nodes();
        forall|i: int, d: HexDir|
            #![trigger ns[i].neighbor_spec(d)]
            0 <= i < ns.len() ==> self.covered(ns[i].neighbor_spec(d)) || c == Some(
                ns[i].neighbor_spec(d),
            )
    }

    closed spec fn basics(&self) -> bool {
        &&& forb_prob_ok(self.forb_num, self.forb_den)
        &&& self.tree_ok()
        &&& self.forbidden_ok()
        &&& self.queue_ok()
    }

    pub closed spec fn wf(&self) -> bool {
        &&& self.basics()
        &&& self.covered_but(None)
        &&& self.tree.nodes().len() == 0 ==> {
            &&& self.to_process@ == seq![(self.start, None::<Hex>)]
            &&& self.forbidden@.len() == 0
        }
    }

    /// An engine that will grow a tree from `start_hex`, forbidding each
    /// candidate with probability `forb_num / forb_den`.
    pub fn new(start_hex: Hex, forb_num: u32, forb_den: u32, rng: StdRng) -> (r: Self)
        requires
            forb_prob_ok(forb_num, forb_den),
        ensures
            r.wf(),
            r.start() == start_hex,
            r.forb_num() == forb_num,
            r.forb_den() == forb_den,
            r.size() == 0,
            r.forbidden_cells().len() == 0,
            r.frontier() == seq![(start_hex, None::<Hex>)],
            r.rng_state() == rng,
    {
        let r = RandHexTree {
            rng,
            forb_num,
            forb_den,
            start: start_hex,
            tree: HexTree::new(),
            to_process: vec![(start_hex, None)],
            forbidden: Vec::new(),
            forbidden_keys: HashSet::new(),
        };
        assert(r.to_process@ =~= seq![(start_hex, None::<Hex>)]);
        r
    }

    /// As `new`, with room reserved for `capacity` cells.
    pub fn with_capacity(start_hex: Hex, forb_num: u32, forb_den: u32, rng: StdRng, capacity: usize) -> (r: Self)
        requires
            forb_prob_ok(forb_num, forb_den),
        ensures
            r.wf(),
            r.start() == start_hex,
            r.forb_num() == forb_num,
            r.forb_den() == forb_den,
            r.size() == 0,
            r.forbidden_cells().len() == 0,
            r.frontier() == seq![(start_hex, None::<Hex>)],
            r.rng_state() == rng,
    {
        let mut to_process = Vec::with_capacity(capacity);
        to_process.push((start_hex, None));
        let r = RandHexTree {
            rng,
            forb_num,
            forb_den,
            start: start_hex,
            tree: HexTree::with_capacity(capacity),
            to_process,
            forbidden: Vec::new(),
            forbidden_keys: HashSet::new(),
        };
        assert(r.to_process@ =~= seq![(start_hex, None::<Hex>)]);
        r
    }

    pub fn tree(&self) -> (r: &HexTree)
        ensures
            *r == self.tree_view(),
    {
        &self.tree
    }

    /// How many cells are forbidden now.
    pub fn forbidden_count(&self) -> (r: usize)
        ensures
            r == self.forbidden_cells().len(),
    {
        self.forbidden.len()
    }

    /// Whether `n` more cells can be grown without leaving the range of
    /// `i32` coordinates.
    pub fn has_room_for(&self, n: usize) -> (r: bool)
        requires
            self.wf(),
        ensures
            r == self.room_for(n as int),
    {
        let len = self.tree.len();
        if n > 2147483647 || len > 2147483647 {
            return false;
        }
        let k = (len + n) as i64;
        let x = self.start.x as i64;
        let y = self.start.y as i64;
        (i32::MIN as i64) < x - k && x + k < (i32::MAX as i64) && (i32::MIN as i64) + 2 <= y - 2 * k
            && y + 2 * k <= (i32::MAX as i64) - 2
    }

    fn is_hex_busy(&self, h: &Hex) -> (r: bool)
        requires
            self.tree.wf(),
        ensures
            r == self.tree.nodes().contains(*h),
    {
        self.tree.contains(h)
    }

    fn is_hex_forbidden(&self, h: &Hex) -> (r: bool)
        requires
            self.forbidden_ok(),
        ensures
            r == self.is_forbidden_spec(*h),
    {
        if h.size != self.start.size {
            assert(!self.is_forbidden_spec(*h)) by {
                if self.is_forbidden_spec(*h) {
                    let i = choose|i: int| 0 <= i < self.forbidden@.len() && #[trigger] self.forbidden@[i].0 == *h;
                    assert(self.forbidden@[i].0.size == self.start.size);
                }
            }
            return false;
        }
        let k = cell_key_of(h);
        let found = self.forbidden_keys.contains(&k);
        proof {
            if found {
                let i = choose|i: int| 0 <= i < self.forbidden@.len() && cell_key(#[trigger] self.forbidden@[i].0) == k as int;
                lemma_cell_key_injective(self.forbidden@[i].0, *h);
                assert(self.forbidden@[i].0.size == self.start.size);
                assert(self.forbidden@[i].0 == *h);
            } else if self.is_forbidden_spec(*h) {
                let i = choose|i: int| 0 <= i < self.forbidden@.len() && #[trigger] self.forbidden@[i].0 == *h;
                assert(cell_key(self.forbidden@[i].0) == k as int);
                assert(self.forbidden_keys@.contains(k));
            }
        }
        found
    }

    fn is_hex_free(&self, h: &Hex) -> (r: bool)
        requires
            self.tree.wf(),
            self.forbidden_ok(),
        ensures
            r == !(self.tree.nodes().contains(*h) || self.is_forbidden_spec(*h)),
    {
        !(self.is_hex_busy(h) || self.is_hex_forbidden(h))
    }

    /// Whether the neighbor of `hex` at position `k` of the canonical order
    /// is neither in the tree nor forbidden.
    closed spec fn free_at(&self, hex: Hex, k: int) -> bool {
        !self.tree.nodes().contains(neighbor_at(hex, k)) && !self.is_forbidden_spec(neighbor_at(hex, k))
    }

    /// The candidates offered among the first `k` neighbors of `hex`, in
    /// canonical order: the free ones whose coin in `coins` came up false.
    closed spec fn queued_part(&self, hex: Hex, coins: Seq<bool>, k: int) -> Seq<(Hex, ParentHex)>
        decreases k,
    {
        if k <= 0 {
            Seq::empty()
        } else {
            let rest = self.queued_part(hex, coins, k - 1);
            if self.free_at(hex, k - 1) && !coins[k - 1] {
                rest.push((neighbor_at(hex, k - 1), Some(hex)))
            } else {
                rest
            }
        }
    }

    /// The cells forbidden among the first `k` neighbors of `hex`, in
    /// canonical order: the free ones whose coin in `coins` came up true.
    closed spec fn forbidden_part(&self, hex: Hex, coins: Seq<bool>, k: int) -> Seq<(Hex, Hex)>
        decreases k,
    {
        if k <= 0 {
            Seq::empty()
        } else {
            let rest = self.forbidden_part(hex, coins, k - 1);
            if self.free_at(hex, k - 1) && coins[k - 1] {
                rest.push((neighbor_at(hex, k - 1), hex))
            } else {
                rest
            }
        }
    }

    /// Whether entry `e` is a free neighbor among the first `k` of `hex`
    /// whose coin came up false, hung from `hex`.
    closed spec fn queued_from(&self, hex: Hex, coins: Seq<bool>, k: int, e: (Hex, ParentHex)) -> bool {
        exists|kk: int|
            0 <= kk < k && self.free_at(hex, kk) && !coins[kk] && e == (
                #[trigger] neighbor_at(hex, kk),
                Some(hex),
            )
    }

    /// The parts depend only on the first `k` coins.
    proof fn lemma_parts_prefix(&self, hex: Hex, c1: Seq<bool>, c2: Seq<bool>, k: int)
        requires
            0 <= k <= c1.len(),
            k <= c2.len(),
            forall|j: int| 0 <= j < k ==> c1[j] == c2[j],
        ensures
            self.queued_part(hex, c1, k) == self.queued_part(hex, c2, k),
            self.forbidden_part(hex, c1, k) == self.forbidden_part(hex, c2, k),
        decreases k,
    {
        if k > 0 {
            self.lemma_parts_prefix(hex, c1, c2, k - 1);
        }
    }

    /// What the parts hold: each entry comes from a distinct earlier free
    /// neighbor, and each free neighbor lands in the part its coin selects.
    proof fn lemma_parts_shape(&self, hex: Hex, coins: Seq<bool>, k: int)
        requires
            0 <= k <= coins.len(),
            k <= 6,
            hex.interior(),
        ensures
            forall|a: int, b: int|
                0 <= a < b < self.forbidden_part(hex, coins, k).len() ==> self.forbidden_part(
                    hex,
                    coins,
                    k,
                )[a].0 != self.forbidden_part(hex, coins, k)[b].0,
            self.queued_part(hex, coins, k).len() + self.forbidden_part(hex, coins, k).len() <= k,
            forall|j: int|
                0 <= j < self.queued_part(hex, coins, k).len() ==> self.queued_from(
                    hex,
                    coins,
                    k,
                    #[trigger] self.queued_part(hex, coins, k)[j],
                ),
            forall|j: int|
                #![trigger self.forbidden_part(hex, coins, k)[j]]
                0 <= j < self.forbidden_part(hex, coins, k).len() ==> exists|kk: int|
                    0 <= kk < k && self.free_at(hex, kk) && coins[kk] && self.forbidden_part(
                        hex,
                        coins,
                        k,
                    )[j] == (#[trigger] neighbor_at(hex, kk), hex),
            forall|kk: int|
                0 <= kk < k && #[trigger] self.free_at(hex, kk) ==> (coins[kk]
                    ==> self.forbidden_part(hex, coins, k).contains((neighbor_at(hex, kk), hex)))
                    && (!coins[kk] ==> self.queued_part(hex, coins, k).contains(
                    (neighbor_at(hex, kk), Some(hex)),
                )),
        decreases k,
    {
        if k > 0 {
            self.lemma_parts_shape(hex, coins, k - 1);
            let q0 = self.queued_part(hex, coins, k - 1);
            let f0 = self.forbidden_part(hex, coins, k - 1);
            let q = self.queued_part(hex, coins, k);
            let f = self.forbidden_part(hex, coins, k);
            assert forall|j: int| 0 <= j < q.len() implies self.queued_from(
                hex,
                coins,
                k,
                #[trigger] q[j],
            ) by {
                if j < q0.len() {
                    assert(q[j] == q0[j]);
                    assert(self.queued_from(hex, coins, k - 1, q0[j]));
                    let kk = choose|kk: int|
                        0 <= kk < k - 1 && self.free_at(hex, kk) && !coins[kk] && q0[j]
                            == (#[trigger] neighbor_at(hex, kk), Some(hex));
                    assert(q[j] == (neighbor_at(hex, kk), Some(hex)));
                    assert(0 <= kk < k && self.free_at(hex, kk) && !coins[kk]);
                } else {
                    assert(q != q0);
                    assert(self.free_at(hex, k - 1) && !coins[k - 1]);
                    assert(q == q0.push((neighbor_at(hex, k - 1), Some(hex))));
                    assert(q[j] == (neighbor_at(hex, k - 1), Some(hex)));
                }
            }
            assert forall|j: int| #![trigger f[j]] 0 <= j < f.len() implies exists|kk: int|
                0 <= kk < k && self.free_at(hex, kk) && coins[kk] && f[j] == (
                    #[trigger] neighbor_at(hex, kk),
                    hex,
                ) by {
                if j < f0.len() {
                    assert(f[j] == f0[j]);
                    let kk = choose|kk: int|
                        0 <= kk < k - 1 && self.free_at(hex, kk) && coins[kk] && f0[j]
                            == (#[trigger] neighbor_at(hex, kk), hex);
                    assert(f[j] == (neighbor_at(hex, kk), hex));
                } else {
                    assert(f[j] == (neighbor_at(hex, k - 1), hex));
                }
            }
            assert forall|a: int, b: int| 0 <= a < b < f.len() implies f[a].0 != f[b].0 by {
                if b < f0.len() {
                    assert(f[a] == f0[a] && f[b] == f0[b]);
                } else {
                    assert(f[a] == f0[a]);
                    assert(f[b] == (neighbor_at(hex, k - 1), hex));
                    let kk = choose|kk: int|
                        0 <= kk < k - 1 && self.free_at(hex, kk) && coins[kk] && f0[a]
                            == (#[trigger] neighbor_at(hex, kk), hex);
                    lemma_neighbors_distinct(hex, kk, k - 1);
                }
            }
            assert forall|kk: int|
                0 <= kk < k && #[trigger] self.free_at(hex, kk) implies (coins[kk] ==> f.contains(
                (neighbor_at(hex, kk), hex),
            )) && (!coins[kk] ==> q.contains((neighbor_at(hex, kk), Some(hex)))) by {
                if kk < k - 1 {
                    if coins[kk] {
                        let j = choose|j: int| 0 <= j < f0.len() && f0[j] == (neighbor_at(hex, kk), hex);
                        assert(f[j] == f0[j]);
                    } else {
                        let j = choose|j: int| 0 <= j < q0.len() && q0[j] == (neighbor_at(hex, kk), Some(hex));
                        assert(q[j] == q0[j]);
                    }
                } else {
                    if coins[kk] {
                        assert(f[f.len() - 1] == (neighbor_at(hex, kk), hex));
                    } else {
                        assert(q[q.len() - 1] == (neighbor_at(hex, kk), Some(hex)));
                    }
                }
            }
        }
    }

    /// The state between choosing candidate `c` and growing it.
    closed spec fn ready(&self, c: (Hex, ParentHex)) -> bool {
        let ns = self.tree.nodes();
        &&& self.basics()
        &&& self.covered_but(Some(c.0))
        &&& !ns.contains(c.0)
        &&& !self.is_forbidden_spec(c.0)
        &&& c.0.size == self.start.size
        &&& within(self.start, c.0, ns.len() as int)
        &&& ns.len() == 0 ==> c == (self.start, None::<Hex>) && self.forbidden@.len() == 0
            && self.to_process@.len() == 0
        &&& ns.len() > 0 ==> c.1 is Some && ns.contains(c.1->0) && adjacent(c.1->0, c.0)
    }

    /// Some candidate or forbidden cell is always left: the cell to the
    /// upper right of the right-most tree cell is not in the tree.
    proof fn lemma_frontier_nonempty(&self)
        requires
            self.basics(),
            self.covered_but(None),
            self.room_for(1),
            self.size() > 0,
        ensures
            self.to_process@.len() > 0 || self.forbidden@.len() > 0,
    {
        let ns = self.tree.nodes();
        let m = lemma_max_x(ns);
        let h = ns[m];
        assert(within(self.start, h, ns.len() - 1));
        let n = h.neighbor_spec(HexDir::RightTop);
        assert(n.x == h.x + 1);
        assert(self.covered(n));
        if ns.contains(n) {
            let j = choose|j: int| 0 <= j < ns.len() && ns[j] == n;
            assert(ns[j].x <= h.x);
        }
        if self.is_forbidden_spec(n) {
            let i = choose|i: int| 0 <= i < self.forbidden@.len() && #[trigger] self.forbidden@[i].0 == n;
        } else {
            assert(self.is_queued(n));
            let i = choose|i: int| 0 <= i < self.to_process@.len() && #[trigger] self.to_process@[i].0 == n;
        }
    }

    /// Takes a random candidate off the frontier or, when there is none,
    /// takes back the most recently forbidden cell.
    fn rand_hex_to_process(&mut self) -> (r: (Hex, ParentHex))
        requires
            old(self).wf(),
            old(self).room_for(1),
        ensures
            final(self).basics(),
            final(self).covered_but(Some(r.0)),
            final(self).tree == old(self).tree,
            final(self).start == old(self).start,
            final(self).forb_num == old(self).forb_num,
            final(self).forb_den == old(self).forb_den,
            final(self).to_process@.len() + final(self).forbidden@.len() + 1
                == old(self).to_process@.len() + old(self).forbidden@.len(),
            r.0.size == old(self).start.size,
            within(old(self).start, r.0, old(self).size()),
            old(self).size() == 0 ==> r == (old(self).start, None::<Hex>)
                && final(self).to_process@.len() == 0 && final(self).forbidden@.len() == 0,
            old(self).size() > 0 ==> r.1 is Some && old(self).tree.nodes().contains(r.1->0)
                && adjacent(r.1->0, r.0),
            old(self).to_process@.len() == 0 ==> !old(self).tree.nodes().contains(r.0)
                && !final(self).is_forbidden_spec(r.0),
            old(self).to_process@.len() > 0 ==> {
                &&& final(self).forbidden@ == old(self).forbidden@
                &&& exists|i: int|
                    0 <= i < old(self).to_process@.len() && r == old(self).to_process@[i]
                        && final(self).to_process@ == old(self).to_process@.update(
                        i,
                        old(self).to_process@.last(),
                    ).drop_last()
            },
            old(self).to_process@.len() == 0 ==> {
                &&& old(self).forbidden@.len() > 0
                &&& r == (old(self).forbidden@.last().0, Some(old(self).forbidden@.last().1))
                &&& final(self).forbidden@ == old(self).forbidden@.drop_last()
                &&& final(self).to_process@ == old(self).to_process@
            },
    {
        if self.to_process.len() == 0 {
            proof {
                if self.tree.nodes().len() > 0 {
                    self.lemma_frontier_nonempty();
                }
            }
            let last = self.forbidden.len() - 1;
            let (hex, discoverer) = self.forbidden.swap_remove(last);
            let k = cell_key_of(&hex);
            self.forbidden_keys.remove(&k);
            proof {
                let ofs = old(self).forbidden@;
                let fs = self.forbidden@;
                assert(fs =~= ofs.drop_last());
                assert(ofs.update(last as int, ofs.last()).drop_last() =~= ofs.drop_last());
                lemma_keys_swap_remove(old(self).forbidden_keys@, ofs, last as int, self.start.size);
                assert(self.forbidden_ok());
                if self.is_forbidden_spec(hex) {
                    let i = choose|i: int| 0 <= i < fs.len() && #[trigger] fs[i].0 == hex;
                    assert(fs[i] == ofs[i]);
                }
                let ns = self.tree.nodes();
                assert forall|i: int, d: HexDir|
                    #![trigger ns[i].neighbor_spec(d)]
                    0 <= i < ns.len() implies self.covered(ns[i].neighbor_spec(d)) || Some(hex)
                        == Some(ns[i].neighbor_spec(d)) by {
                    let n = ns[i].neighbor_spec(d);
                    assert(old(self).covered(n));
                    if old(self).is_forbidden_spec(n) && n != hex {
                        let j = choose|j: int| 0 <= j < ofs.len() && #[trigger] ofs[j].0 == n;
                        assert(fs[j] == ofs[j]);
                    }
                }
            }
            return (hex, Some(discoverer));
        }
        let len = self.to_process.len();
        let i = rand_index(&mut self.rng, len);
        let r = self.to_process.swap_remove(i);
        proof {
            let ots = old(self).to_process@;
            let ts = self.to_process@;
            assert(ts =~= ots.update(i as int, ots.last()).drop_last());
            assert forall|j: int| 0 <= j < ts.len() implies #[trigger] ts[j] == ots[j] || (j == i
                && ts[j] == ots.last()) by {}
            assert forall|j: int| 0 <= j < ts.len() implies {
                &&& (#[trigger] ts[j]).0.size == self.start.size
                &&& within(self.start, ts[j].0, self.tree.nodes().len() as int)
                &&& self.tree.nodes().len() > 0 ==> {
                    &&& ts[j].1 is Some
                    &&& self.tree.nodes().contains(ts[j].1->0)
                    &&& adjacent(ts[j].1->0, ts[j].0)
                }
            } by {
                if ts[j] == ots[j] {
                    assert(old(self).to_process@[j] == ots[j]);
                } else {
                    assert(old(self).to_process@[ots.len() - 1] == ots.last());
                }
            }
            assert(self.queue_ok());
            assert(self.forbidden@ == old(self).forbidden@);
            assert(self.tree_ok());
            assert(self.forbidden_ok());
            if old(self).size() == 0 {
                assert(ots.len() == 1);
                assert(ts.len() == 0);
            }
            let ns = self.tree.nodes();
            assert forall|ii: int, d: HexDir|
                #![trigger ns[ii].neighbor_spec(d)]
                0 <= ii < ns.len() implies self.covered(ns[ii].neighbor_spec(d)) || Some(r.0)
                    == Some(ns[ii].neighbor_spec(d)) by {
                let n = ns[ii].neighbor_spec(d);
                assert(old(self).covered(n));
                if old(self).is_forbidden_spec(n) {
                    let j = choose|j: int| 0 <= j < self.forbidden@.len() && #[trigger] old(self).forbidden@[j].0 == n;
                    assert(self.forbidden@[j].0 == n);
                }
                if old(self).is_queued(n) && n != r.0 {
                    let j = choose|j: int| 0 <= j < ots.len() && #[trigger] ots[j].0 == n;
                    if j == ots.len() - 1 {
                        assert(ts[i as int] == ots[j]);
                        assert(self.to_process@[i as int].0 == n);
                    } else {
                        assert(ts[j] == ots[j]);
                        assert(self.to_process@[j].0 == n);
                    }
                    assert(self.is_queued(n));
                }
            }
        }
        r
    }

    /// Draws candidates until one is neither in the tree nor forbidden.
    fn rand_free_hex_to_process(&mut self) -> (r: (Hex, ParentHex))
        requires
            old(self).wf(),
            old(self).room_for(1),
        ensures
            final(self).ready(r),
            final(self).tree == old(self).tree,
            final(self).start == old(self).start,
            final(self).forb_num == old(self).forb_num,
            final(self).forb_den == old(self).forb_den,
            final(self).forbidden@ == old(self).forbidden@ || (old(self).forbidden@.len() > 0
                && final(self).forbidden@ == old(self).forbidden@.drop_last() && r.0 == old(self).forbidden@.last().0),
    {
        loop
            invariant
                self.wf(),
                self.room_for(1),
                self.forbidden@ == old(self).forbidden@,
                self.tree == old(self).tree,
                self.start == old(self).start,
                self.forb_num == old(self).forb_num,
                self.forb_den == old(self).forb_den,
            decreases self.to_process@.len() + self.forbidden@.len(),
        {
            let r = self.rand_hex_to_process();
            if self.is_hex_free(&r.0) {
                return r;
            }
            proof {
                let ns = self.tree.nodes();
                assert forall|ii: int, d: HexDir|
                    #![trigger ns[ii].neighbor_spec(d)]
                    0 <= ii < ns.len() implies self.covered(ns[ii].neighbor_spec(d)) || None::<Hex>
                        == Some(ns[ii].neighbor_spec(d)) by {
                    assert(self.covered(ns[ii].neighbor_spec(d)) || Some(r.0) == Some(ns[ii].neighbor_spec(d)));
                }
            }
        }
    }

    /// Commits candidate `c` to the tree, then offers each free neighbor as
    /// a candidate or forbids it by a weighted coin; if none came out free
    /// but some were forbidden, one of those, drawn at random, is offered.
    fn insert_hex(&mut self, c: (Hex, ParentHex)) -> (coins: Ghost<Seq<bool>>)
        requires
            old(self).ready(c),
            old(self).room_for(1),
        ensures
            final(self).wf(),
            final(self).tree.parents() == old(self).tree.parents().push(final(self).tree.parents().last()),
            coins@.len() == 6,
            ({
                let q = old(self).queued_part(c.0, coins@, 6);
                let f = old(self).forbidden_part(c.0, coins@, 6);
                &&& !(q.len() == 0 && f.len() > 0) ==> final(self).to_process@ == old(self).to_process@
                    + q && final(self).forbidden@ == old(self).forbidden@ + f
                &&& (q.len() == 0 && f.len() > 0) ==> exists|idx: int|
                    #![trigger f[idx]]
                    0 <= idx < f.len() && final(self).forbidden@ == (old(self).forbidden@ + f).update(
                        old(self).forbidden@.len() + idx,
                        (old(self).forbidden@ + f).last(),
                    ).drop_last() && final(self).to_process@ == old(self).to_process@.push(
                        (f[idx].0, Some(c.0)),
                    )
            }),
            final(self).tree.nodes() == old(self).tree.nodes().push(c.0),
            old(self).size() > 0 ==> old(self).tree.nodes()[final(self).tree.parents().last() as int]
                == c.1->0,
            final(self).start == old(self).start,
            final(self).forb_num == old(self).forb_num,
            final(self).forb_den == old(self).forb_den,
    {
        let hex = c.0;
        let ghost ns_old = self.tree.nodes();
        match c.1 {
            Some(p) => {
                self.tree.insert(hex, &p);
            },
            None => {
                self.tree.reset_root(hex);
            },
        }
        let ghost ns = self.tree.nodes();
        proof {
            assert(ns == ns_old.push(hex));
            assert forall|i: int| 0 <= i < ns.len() implies (#[trigger] ns[i]).size
                == self.start.size && within(self.start, ns[i], ns.len() - 1) by {
                if i < ns_old.len() {
                    assert(ns[i] == ns_old[i]);
                    assert(old(self).tree.nodes()[i] == ns_old[i]);
                }
            }
            assert forall|i: int| 0 < i < ns.len() implies adjacent(
                ns[self.tree.parents()[i] as int],
                #[trigger] ns[i],
            ) by {
                if i < ns_old.len() {
                    assert(ns[i] == ns_old[i]);
                    assert(old(self).tree.nodes()[i] == ns_old[i]);
                    assert(self.tree.parents()[i] == old(self).tree.parents()[i]);
                    let pi = self.tree.parents()[i] as int;
                    assert(ns[pi] == ns_old[pi]);
                }
            }
            assert(self.tree_ok());
            assert forall|i: int| 0 <= i < self.forbidden@.len() implies {
                &&& (#[trigger] self.forbidden@[i]).0.size == self.start.size
                &&& !ns.contains(self.forbidden@[i].0)
                &&& ns.contains(self.forbidden@[i].1)
                &&& adjacent(self.forbidden@[i].1, self.forbidden@[i].0)
                &&& within(self.start, self.forbidden@[i].0, ns.len() as int)
            } by {
                let f = self.forbidden@[i];
                assert(old(self).forbidden@[i] == f);
                if ns.contains(f.0) {
                    let j = choose|j: int| 0 <= j < ns.len() && ns[j] == f.0;
                    if j < ns_old.len() {
                        assert(ns_old[j] == ns[j]);
                    } else {
                        assert(old(self).forbidden@[i].0 == hex);
                    }
                }
                let j = choose|j: int| 0 <= j < ns_old.len() && ns_old[j] == f.1;
                assert(ns[j] == ns_old[j]);
            }
            assert(self.forbidden@ == old(self).forbidden@);
            assert(self.forbidden_keys@ == old(self).forbidden_keys@);
            assert(old(self).forbidden_ok());
            assert(self.forbidden_ok());
            assert forall|i: int| 0 <= i < self.to_process@.len() implies {
                &&& (#[trigger] self.to_process@[i]).0.size == self.start.size
                &&& within(self.start, self.to_process@[i].0, ns.len() as int)
                &&& ns.len() > 0 ==> {
                    &&& self.to_process@[i].1 is Some
                    &&& ns.contains(self.to_process@[i].1->0)
                    &&& adjacent(self.to_process@[i].1->0, self.to_process@[i].0)
                }
            } by {
                let e = self.to_process@[i];
                assert(old(self).to_process@[i] == e);
                let j = choose|j: int| 0 <= j < ns_old.len() && ns_old[j] == e.1->0;
                assert(ns[j] == ns_old[j]);
            }
            assert(self.queue_ok());
            assert(hex.interior());
            assert forall|ii: int, d: HexDir|
                #![trigger ns[ii].neighbor_spec(d)]
                0 <= ii < ns_old.len() implies self.covered(ns[ii].neighbor_spec(d)) by {
                assert(ns[ii] == ns_old[ii]);
                assert(old(self).tree.nodes()[ii] == ns_old[ii]);
                let n = ns_old[ii].neighbor_spec(d);
                assert(old(self).covered(n) || Some(hex) == Some(n));
                if n == hex {
                    assert(ns[ns.len() - 1] == hex);
                } else if ns_old.contains(n) {
                    let j = choose|j: int| 0 <= j < ns_old.len() && ns_old[j] == n;
                    assert(ns[j] == ns_old[j]);
                } else if old(self).is_forbidden_spec(n) {
                    let j = choose|j: int| 0 <= j < self.forbidden@.len() && #[trigger] old(self).forbidden@[j].0 == n;
                    assert(self.forbidden@[j].0 == n);
                } else {
                    let j = choose|j: int| 0 <= j < self.to_process@.len() && #[trigger] old(self).to_process@[j].0 == n;
                    assert(self.to_process@[j].0 == n);
                }
            }
        }
        let ghost s1 = *self;
        let (n_free, n_forb, coins) = self.free_forb_neighbors(hex);
        let ghost s2 = *self;
        self.one_forb_to_empty_free(hex, n_free, n_forb);
        proof {
            assert forall|ii: int, d: HexDir|
                #![trigger ns[ii].neighbor_spec(d)]
                0 <= ii < ns.len() implies self.covered(ns[ii].neighbor_spec(d)) || None::<Hex>
                    == Some(ns[ii].neighbor_spec(d)) by {
                let n = ns[ii].neighbor_spec(d);
                if ii == ns.len() - 1 {
                    assert(ns[ii] == hex);
                    assert(s2.covered(hex.neighbor_spec(d)));
                } else {
                    assert(s1.covered(n));
                    assert(s2.covered(n));
                }
                assert(self.covered(n));
            }
            assert(self.tree.parents() =~= old(self).tree.parents().push(self.tree.parents().last()));
            assert forall|kk: int| 0 <= kk < 6 implies old(self).free_at(hex, kk) == s1.free_at(hex, kk) by {
                let n = neighbor_at(hex, kk);
                lemma_neighbor_round_trip(hex, hex_dir_at(kk)->0);
                assert(n != hex);
                if ns.contains(n) {
                    let j = choose|j: int| 0 <= j < ns.len() && ns[j] == n;
                    assert(j < ns_old.len());
                    assert(ns_old[j] == n);
                }
                if ns_old.contains(n) {
                    let j = choose|j: int| 0 <= j < ns_old.len() && ns_old[j] == n;
                    assert(ns[j] == n);
                }
            }
            lemma_parts_agree(&*old(self), &s1, hex, coins@, 6);
            let q = old(self).queued_part(hex, coins@, 6);
            let f = old(self).forbidden_part(hex, coins@, 6);
            if n_free == 0 && n_forb > 0 {
                let idx2 = choose|idx: int|
                    #![trigger s2.forbidden@[idx]]
                    s2.forbidden@.len() - n_forb <= idx < s2.forbidden@.len()
                        && self.forbidden@ == s2.forbidden@.update(idx, s2.forbidden@.last()).drop_last()
                        && self.to_process@ == s2.to_process@.push((s2.forbidden@[idx].0, Some(hex)));
                let idx = idx2 - old(self).forbidden@.len();
                assert(s2.forbidden@[idx2] == f[idx]);
                assert(s2.to_process@ =~= old(self).to_process@);
            }
        }
        coins
    }

    /// Offers each free neighbor of `hex`, the newest tree cell, as a
    /// candidate, or forbids it by a weighted coin. Returns how many were
    /// offered and how many forbidden; the forbidden ones are the last
    /// forbidden cells.
    fn free_forb_neighbors(&mut self, hex: Hex) -> (r: (usize, usize, Ghost<Seq<bool>>))
        requires
            old(self).basics(),
            hex.interior(),
            old(self).tree.nodes().len() > 0,
            old(self).tree.nodes()[old(self).tree.nodes().len() - 1] == hex,
            hex.size == old(self).start.size,
            within(old(self).start, hex, old(self).tree.nodes().len() - 1),
        ensures
            final(self).basics(),
            final(self).tree == old(self).tree,
            final(self).start == old(self).start,
            final(self).forb_num == old(self).forb_num,
            final(self).forb_den == old(self).forb_den,
            forall|h: Hex| old(self).covered(h) ==> #[trigger] final(self).covered(h),
            forall|d: HexDir| #[trigger] final(self).covered(hex.neighbor_spec(d)),
            r.1 <= final(self).forbidden@.len(),
            forall|j: int|
                final(self).forbidden@.len() - r.1 <= j < final(self).forbidden@.len()
                    ==> (#[trigger] final(self).forbidden@[j]).1 == hex,
            r.2@.len() == 6,
            final(self).to_process@ == old(self).to_process@ + old(self).queued_part(hex, r.2@, 6),
            final(self).forbidden@ == old(self).forbidden@ + old(self).forbidden_part(hex, r.2@, 6),
            r.0 == old(self).queued_part(hex, r.2@, 6).len(),
            r.1 == old(self).forbidden_part(hex, r.2@, 6).len(),
    {
        let ghost ns = self.tree.nodes();
        let ghost mut coins: Seq<bool> = Seq::empty();
        let mut neighbors = hex.neighbors();
        let mut n_free: usize = 0;
        let mut n_forb: usize = 0;
        let mut i: usize = 0;
        while i < 6
            invariant
                i <= 6,
                neighbors.source() == hex,
                neighbors.position() == i,
                hex.interior(),
                ns.len() > 0,
                ns[ns.len() - 1] == hex,
                self.tree.nodes() == ns,
                self.tree == old(self).tree,
                self.start == old(self).start,
                self.forb_num == old(self).forb_num,
                self.forb_den == old(self).forb_den,
                hex.size == self.start.size,
                within(self.start, hex, ns.len() - 1),
                self.basics(),
                forall|h: Hex| old(self).covered(h) ==> #[trigger] self.covered(h),
                forall|k: int|
                    #![trigger hex_dir_at(k)]
                    0 <= k < i ==> self.covered(hex.neighbor_spec(hex_dir_at(k)->0)),
                n_forb <= self.forbidden@.len(),
                n_free + n_forb <= i,
                forall|j: int|
                    self.forbidden@.len() - n_forb <= j < self.forbidden@.len()
                        ==> (#[trigger] self.forbidden@[j]).1 == hex,
                coins.len() == i,
                self.to_process@ == old(self).to_process@ + old(self).queued_part(hex, coins, i as int),
                self.forbidden@ == old(self).forbidden@ + old(self).forbidden_part(hex, coins, i as int),
                n_free == old(self).queued_part(hex, coins, i as int).len(),
                n_forb == old(self).forbidden_part(hex, coins, i as int).len(),
            decreases 6 - i,
        {
            let ghost prev = *self;
            let ghost prev_coins = coins;
            let n = match neighbors.next() {
                Some(n) => n,
                None => {
                    assert(false);
                    hex
                },
            };
            proof {
                let d = hex_dir_at(i as int)->0;
                assert(n == hex.neighbor_spec(d));
                lemma_neighbor_round_trip(hex, d);
                assert(n == neighbor_at(hex, i as int));
                old(self).lemma_parts_shape(hex, coins, i as int);
                let fp = old(self).forbidden_part(hex, coins, i as int);
                let ofs = old(self).forbidden@;
                if self.is_forbidden_spec(n) {
                    let j = choose|j: int| 0 <= j < self.forbidden@.len() && #[trigger] self.forbidden@[j].0 == n;
                    if j < ofs.len() {
                        assert(ofs[j] == self.forbidden@[j]);
                    } else {
                        assert(self.forbidden@[j] == fp[j - ofs.len()]);
                        assert(old(self).forbidden_part(hex, coins, i as int)[j - ofs.len()] == fp[j - ofs.len()]);
                        let kk = choose|kk: int|
                            0 <= kk < i && old(self).free_at(hex, kk) && coins[kk]
                                && fp[j - ofs.len()] == (#[trigger] neighbor_at(hex, kk), hex);
                        lemma_neighbors_distinct(hex, kk, i as int);
                    }
                }
                if old(self).is_forbidden_spec(n) {
                    let j = choose|j: int| 0 <= j < ofs.len() && #[trigger] ofs[j].0 == n;
                    assert(self.forbidden@[j] == ofs[j]);
                }
                assert(self.is_forbidden_spec(n) == old(self).is_forbidden_spec(n));
            }
            if self.is_hex_free(&n) {
                let coin = rand_ratio(&mut self.rng, self.forb_num, self.forb_den);
                proof {
                    coins = coins.push(coin);
                }
                if coin {
                    let k = cell_key_of(&n);
                    self.forbidden.push((n, hex));
                    self.forbidden_keys.insert(k);
                    n_forb = n_forb + 1;
                    proof {
                        let fs = self.forbidden@;
                        let pfs = prev.forbidden@;
                        assert(fs == pfs.push((n, hex)));
                        assert forall|a: int, b: int| 0 <= a < b < fs.len() implies fs[a].0
                            != fs[b].0 by {
                            if b == fs.len() - 1 {
                                assert(prev.forbidden@[a] == fs[a]);
                                assert(fs[b].0 == n);
                            } else {
                                assert(pfs[a] == fs[a] && pfs[b] == fs[b]);
                            }
                        }
                        lemma_keys_push(prev.forbidden_keys@, pfs, (n, hex));
                        assert forall|a: int| 0 <= a < fs.len() implies {
                            &&& (#[trigger] fs[a]).0.size == self.start.size
                            &&& !ns.contains(fs[a].0)
                            &&& ns.contains(fs[a].1)
                            &&& adjacent(fs[a].1, fs[a].0)
                            &&& within(self.start, fs[a].0, ns.len() as int)
                        } by {
                            if a < pfs.len() {
                                assert(prev.forbidden@[a] == fs[a]);
                            } else {
                                assert(ns[ns.len() - 1] == hex);
                            }
                        }
                        assert(self.forbidden_ok());
                    }
                } else {
                    self.to_process.push((n, Some(hex)));
                    n_free = n_free + 1;
                    proof {
                        let ts = self.to_process@;
                        let pts = prev.to_process@;
                        assert(ts == pts.push((n, Some(hex))));
                        assert(ns[ns.len() - 1] == hex);
                        assert forall|a: int| 0 <= a < ts.len() implies {
                            &&& (#[trigger] ts[a]).0.size == self.start.size
                            &&& within(self.start, ts[a].0, ns.len() as int)
                            &&& ns.len() > 0 ==> {
                                &&& ts[a].1 is Some
                                &&& ns.contains(ts[a].1->0)
                                &&& adjacent(ts[a].1->0, ts[a].0)
                            }
                        } by {
                            if a < pts.len() {
                                assert(prev.to_process@[a] == ts[a]);
                            }
                        }
                        assert(self.queue_ok());
                    }
                }
            }
            proof {
                if coins.len() == i {
                    coins = coins.push(false);
                }
                old(self).lemma_parts_prefix(hex, prev_coins, coins, i as int);
                assert(self.to_process@ =~= old(self).to_process@ + old(self).queued_part(hex, coins, i + 1));
                assert(self.forbidden@ =~= old(self).forbidden@ + old(self).forbidden_part(hex, coins, i + 1));
                assert(prev.forbidden@ =~= self.forbidden@.subrange(0, prev.forbidden@.len() as int));
                assert(prev.to_process@ =~= self.to_process@.subrange(0, prev.to_process@.len() as int));
                assert forall|h: Hex| prev.covered(h) implies self.covered(h) by {
                    lemma_covered_grows(&prev, self, h);
                }
                assert(self.covered(n)) by {
                    if self.tree.nodes().contains(n) {
                    } else if prev.is_forbidden_spec(n) {
                        lemma_covered_grows(&prev, self, n);
                    } else if self.forbidden@.len() > prev.forbidden@.len() {
                        assert(self.forbidden@[self.forbidden@.len() - 1].0 == n);
                    } else {
                        assert(self.to_process@[self.to_process@.len() - 1].0 == n);
                    }
                }
                assert forall|k: int|
                    #![trigger hex_dir_at(k)]
                    0 <= k < i + 1 implies self.covered(hex.neighbor_spec(hex_dir_at(k)->0)) by {
                    if k < i {
                        assert(prev.covered(hex.neighbor_spec(hex_dir_at(k)->0)));
                    }
                }
                assert forall|h: Hex| old(self).covered(h) implies #[trigger] self.covered(h) by {
                    assert(prev.covered(h));
                }
            }
            i = i + 1;
        }
        proof {
            assert forall|d: HexDir| #[trigger] self.covered(hex.neighbor_spec(d)) by {
                let k = lemma_hex_dir_index(d);
                assert(hex_dir_at(k)->0 == d);
            }
        }
        (n_free, n_forb, Ghost(coins))
    }

    /// When no neighbor of `hex` came out free but `n_forb` were forbidden,
    /// offers one of those, drawn at random, so that `hex` does not end
    /// growth on its side.
    fn one_forb_to_empty_free(&mut self, hex: Hex, n_free: usize, n_forb: usize)
        requires
            old(self).basics(),
            old(self).tree.nodes().len() > 0,
            old(self).tree.nodes()[old(self).tree.nodes().len() - 1] == hex,
            n_forb <= old(self).forbidden@.len(),
            forall|j: int|
                old(self).forbidden@.len() - n_forb <= j < old(self).forbidden@.len()
                    ==> (#[trigger] old(self).forbidden@[j]).1 == hex,
        ensures
            final(self).basics(),
            final(self).tree == old(self).tree,
            final(self).start == old(self).start,
            final(self).forb_num == old(self).forb_num,
            final(self).forb_den == old(self).forb_den,
            forall|h: Hex| old(self).covered(h) ==> #[trigger] final(self).covered(h),
            n_free == 0 && n_forb > 0 ==> exists|idx: int|
                #![trigger old(self).forbidden@[idx]]
                old(self).forbidden@.len() - n_forb <= idx < old(self).forbidden@.len()
                    && final(self).forbidden@ == old(self).forbidden@.update(
                    idx,
                    old(self).forbidden@.last(),
                ).drop_last() && final(self).to_process@ == old(self).to_process@.push(
                    (old(self).forbidden@[idx].0, Some(hex)),
                ),
            !(n_free == 0 && n_forb > 0) ==> *final(self) == *old(self),
    {
        let ghost ns = self.tree.nodes();
        if n_free == 0 && n_forb > 0 {
            let ghost prev = *self;
            let j = rand_index(&mut self.rng, n_forb);
            let idx = self.forbidden.len() - n_forb + j;
            let (f, _) = self.forbidden.swap_remove(idx);
            let k = cell_key_of(&f);
            self.forbidden_keys.remove(&k);
            self.to_process.push((f, Some(hex)));
            proof {
                let pfs = prev.forbidden@;
                let fs = self.forbidden@;
                let last = pfs.len() - 1;
                assert(fs =~= pfs.update(idx as int, pfs.last()).drop_last());
                assert(pfs[idx as int].1 == hex);
                assert(old(self).forbidden@[idx as int].0 == f);
                assert(self.to_process@ == prev.to_process@.push((f, Some(hex))));
                assert forall|a: int| 0 <= a < fs.len() implies #[trigger] fs[a] == pfs[a] || (a
                    == idx && fs[a] == pfs[last]) by {}
                assert forall|a: int, b: int| 0 <= a < b < fs.len() implies fs[a].0 != fs[b].0 by {
                    let a2 = if fs[a] == pfs[a] { a } else { last };
                    let b2 = if fs[b] == pfs[b] { b } else { last };
                    assert(pfs[a2] == fs[a] && pfs[b2] == fs[b]);
                    assert(a2 != b2);
                    if a2 < b2 {
                        assert(pfs[a2].0 != pfs[b2].0);
                    } else {
                        assert(pfs[b2].0 != pfs[a2].0);
                    }
                }
                lemma_keys_swap_remove(prev.forbidden_keys@, pfs, idx as int, self.start.size);
                assert forall|a: int| 0 <= a < fs.len() implies {
                    &&& (#[trigger] fs[a]).0.size == self.start.size
                    &&& !ns.contains(fs[a].0)
                    &&& ns.contains(fs[a].1)
                    &&& adjacent(fs[a].1, fs[a].0)
                    &&& within(self.start, fs[a].0, ns.len() as int)
                } by {
                    let a2 = if fs[a] == pfs[a] { a } else { last };
                    assert(prev.forbidden@[a2] == fs[a]);
                }
                assert(self.forbidden_ok());
                let ts = self.to_process@;
                let pts = prev.to_process@;
                assert(ts == pts.push((f, Some(hex))));
                assert(prev.forbidden@[idx as int] == pfs[idx as int]);
                assert(ns[ns.len() - 1] == hex);
                assert forall|a: int| 0 <= a < ts.len() implies {
                    &&& (#[trigger] ts[a]).0.size == self.start.size
                    &&& within(self.start, ts[a].0, ns.len() as int)
                    &&& ns.len() > 0 ==> {
                        &&& ts[a].1 is Some
                        &&& ns.contains(ts[a].1->0)
                        &&& adjacent(ts[a].1->0, ts[a].0)
                    }
                } by {
                    if a < pts.len() {
                        assert(prev.to_process@[a] == ts[a]);
                    }
                }
                assert(self.queue_ok());
                assert forall|h: Hex| prev.covered(h) implies #[trigger] self.covered(h) by {
                    if prev.is_queued(h) {
                        let a = choose|a: int| 0 <= a < pts.len() && #[trigger] pts[a].0 == h;
                        assert(ts[a] == pts[a]);
                    } else if prev.is_forbidden_spec(h) {
                        let a = choose|a: int| 0 <= a < pfs.len() && #[trigger] pfs[a].0 == h;
                        if a == idx as int {
                            assert(ts[ts.len() - 1].0 == h);
                        } else if a == last {
                            assert(fs[idx as int] == pfs[a]);
                        } else {
                            assert(fs[a] == pfs[a]);
                        }
                    }
                }
            }
        }
    }

    /// Grows the tree by exactly one cell and returns it. The first call
    /// grows the start cell; every later one grows a neighbor of a cell
    /// already in the tree, hung from that cell.
    pub fn add_hex(&mut self) -> (r: Hex)
        requires
            old(self).wf(),
            old(self).room_for(1),
        ensures
            final(self).wf(),
            final(self).start() == old(self).start(),
            final(self).forb_num() == old(self).forb_num(),
            final(self).forb_den() == old(self).forb_den(),
            final(self).tree_view().nodes() == old(self).tree_view().nodes().push(r),
            !old(self).tree_view().nodes().contains(r),
            old(self).size() == 0 ==> r == old(self).start(),
            old(self).size() > 0 ==> {
                let p = final(self).tree_view().parents().last() as int;
                &&& p < old(self).size()
                &&& adjacent(old(self).tree_view().nodes()[p], r)
            },
            final(self).tree_view().parents() == old(self).tree_view().parents().push(
                final(self).tree_view().parents().last(),
            ),
            forall|j: int|
                0 <= j < old(self).forbidden_cells().len() && (#[trigger] old(self).forbidden_cells()[j]).0 != r ==> final(self).is_forbidden_cell(
                    old(self).forbidden_cells()[j].0,
                ),
            forall|d: HexDir|
                old(self).is_free_cell(#[trigger] r.neighbor_spec(d)) ==> final(self).is_forbidden_cell(r.neighbor_spec(d)) || final(self).frontier().contains(
                    (r.neighbor_spec(d), Some(r)),
                ),
            old(self).forb_num() == 0 ==> forall|d: HexDir|
                old(self).is_free_cell(#[trigger] r.neighbor_spec(d)) ==> final(self).frontier().contains((r.neighbor_spec(d), Some(r))),
            (exists|d: HexDir| old(self).is_free_cell(#[trigger] r.neighbor_spec(d))) ==> exists|
                k: int,
            |
                0 <= k < final(self).frontier().len() && (#[trigger] final(self).frontier()[k]).1
                    == Some(r) && adjacent(r, final(self).frontier()[k].0) && !final(self).is_forbidden_cell(final(self).frontier()[k].0),
    {
        let c = self.rand_free_hex_to_process();
        let ghost s0 = *self;
        let coins = self.insert_hex(c);
        proof {
            assert(self.grew(&*old(self), &s0, c, coins@));
            self.lemma_grew_keeps_forbidden(&*old(self), &s0, c, coins@);
            self.lemma_grew_places_free_neighbors(&*old(self), &s0, c, coins@);
            self.lemma_grew_queues_one(&*old(self), &s0, c, coins@);
        }
        proof {
            let ns = self.tree.nodes();
            if old(self).size() > 0 {
                assert(self.tree.parents()[ns.len() - 1] < ns.len() - 1);
                assert(ns[ns.len() - 1] == c.0);
            }
        }
        c.0
    }

    /// Grows the tree by `count` cells, one `add_hex` after another, and
    /// returns them in the order they were grown.
    pub fn add_hexes(&mut self, count: usize) -> (r: Vec<Hex>)
        requires
            old(self).wf(),
            old(self).room_for(count as int),
        ensures
            final(self).wf(),
            final(self).start() == old(self).start(),
            final(self).forb_num() == old(self).forb_num(),
            final(self).forb_den() == old(self).forb_den(),
            r@.len() == count,
            final(self).tree_view().nodes() == old(self).tree_view().nodes() + r@,
            final(self).size() == old(self).size() + count,
    {
        let mut hexes: Vec<Hex> = Vec::with_capacity(count);
        let mut k: usize = 0;
        while k < count
            invariant
                k <= count,
                self.wf(),
                hexes@.len() == k,
                self.start() == old(self).start(),
                self.forb_num() == old(self).forb_num(),
                self.forb_den() == old(self).forb_den(),
                self.tree_view().nodes() == old(self).tree_view().nodes() + hexes@,
                self.size() == old(self).size() + k,
                old(self).room_for(count as int),
            decreases count - k,
        {
            let h = self.add_hex();
            hexes.push(h);
            k = k + 1;
            assert(self.tree_view().nodes() =~= old(self).tree_view().nodes() + hexes@);
        }
        hexes
    }
}

impl RandHexTree {
    /// `self` is what one growth step made of `o`: `s0` is the state after
    /// the draw of candidate `c`, and `coins` the outcomes of the coins.
    closed spec fn grew(&self, o: &RandHexTree, s0: &RandHexTree, c: (Hex, ParentHex), coins: Seq<bool>) -> bool {
        &&& o.wf()
        &&& o.room_for(1)
        &&& s0.ready(c)
        &&& s0.tree == o.tree
        &&& s0.start == o.start
        &&& s0.forbidden@ == o.forbidden@ || (o.forbidden@.len() > 0 && s0.forbidden@
            == o.forbidden@.drop_last() && c.0 == o.forbidden@.last().0)
        &&& self.wf()
        &&& self.forb_num == o.forb_num
        &&& coins.len() == 6
        &&& ({
            let q = s0.queued_part(c.0, coins, 6);
            let f = s0.forbidden_part(c.0, coins, 6);
            &&& !(q.len() == 0 && f.len() > 0) ==> self.to_process@ == s0.to_process@ + q
                && self.forbidden@ == s0.forbidden@ + f
            &&& (q.len() == 0 && f.len() > 0) ==> exists|idx: int|
                #![trigger f[idx]]
                0 <= idx < f.len() && self.forbidden@ == (s0.forbidden@ + f).update(
                    s0.forbidden@.len() + idx,
                    (s0.forbidden@ + f).last(),
                ).drop_last() && self.to_process@ == s0.to_process@.push((f[idx].0, Some(c.0)))
        })
    }

    /// Old forbidden cells other than the grown one stay forbidden.
    #[verifier::rlimit(40)]
    proof fn lemma_grew_keeps_forbidden(&self, o: &RandHexTree, s0: &RandHexTree, c: (Hex, ParentHex), coins: Seq<bool>)
        requires
            self.grew(o, s0, c, coins),
        ensures
            forall|j: int|
                0 <= j < o.forbidden_cells().len() && (#[trigger] o.forbidden_cells()[j]).0 != c.0
                    ==> self.is_forbidden_cell(o.forbidden_cells()[j].0),
    {
        let r = c.0;
        assert(r.interior());
        let q = s0.queued_part(r, coins, 6);
        let f = s0.forbidden_part(r, coins, 6);
        let sf = s0.forbidden@;
        let of = o.forbidden@;
        let fs = self.forbidden@;
        let ts = self.to_process@;
        let step5 = q.len() == 0 && f.len() > 0;
        let all = sf + f;
        let idx = if step5 {
            choose|idx: int|
                #![trigger f[idx]]
                0 <= idx < f.len() && fs == all.update(sf.len() + idx, all.last()).drop_last() && ts
                    == s0.to_process@.push((f[idx].0, Some(r)))
        } else {
            0
        };
        assert forall|p: int| #![trigger all[p]] 0 <= p < all.len() && !(step5 && p == sf.len() + idx) implies exists|
            pp: int,
        | 0 <= pp < fs.len() && #[trigger] fs[pp] == all[p] by {
            if step5 {
                if p == all.len() - 1 {
                    assert(fs[sf.len() + idx] == all[p]);
                } else {
                    assert(fs[p] == all[p]);
                }
            } else {
                assert(fs[p] == all[p]);
            }
        }
        assert forall|j: int|
            0 <= j < o.forbidden_cells().len() && (#[trigger] o.forbidden_cells()[j]).0 != r
                implies self.is_forbidden_cell(o.forbidden_cells()[j].0) by {
            assert(j < sf.len());
            assert(sf[j] == of[j]);
            assert(all[j] == sf[j]);
            let pp = choose|pp: int| 0 <= pp < fs.len() && #[trigger] fs[pp] == all[j];
            assert(self.forbidden_cells()[pp].0 == of[j].0);
        }
    }

    /// Each free neighbor of the grown cell is queued under it or forbidden.
    #[verifier::rlimit(40)]
    proof fn lemma_grew_places_free_neighbors(&self, o: &RandHexTree, s0: &RandHexTree, c: (Hex, ParentHex), coins: Seq<bool>)
        requires
            self.grew(o, s0, c, coins),
        ensures
            forall|d: HexDir|
                o.is_free_cell(#[trigger] c.0.neighbor_spec(d)) ==> self.is_forbidden_cell(
                    c.0.neighbor_spec(d),
                ) || self.frontier().contains((c.0.neighbor_spec(d), Some(c.0))),
            o.forb_num == 0 ==> forall|d: HexDir|
                o.is_free_cell(#[trigger] c.0.neighbor_spec(d)) ==> self.frontier().contains(
                    (c.0.neighbor_spec(d), Some(c.0)),
                ),
    {
        let r = c.0;
        assert(r.interior());
        let q = s0.queued_part(r, coins, 6);
        let f = s0.forbidden_part(r, coins, 6);
        s0.lemma_parts_shape(r, coins, 6);
        let sf = s0.forbidden@;
        let of = o.forbidden@;
        let fs = self.forbidden@;
        let ts = self.to_process@;
        let step5 = q.len() == 0 && f.len() > 0;
        let all = sf + f;
        let idx = if step5 {
            choose|idx: int|
                #![trigger f[idx]]
                0 <= idx < f.len() && fs == all.update(sf.len() + idx, all.last()).drop_last() && ts
                    == s0.to_process@.push((f[idx].0, Some(r)))
        } else {
            0
        };
        assert forall|p: int| #![trigger all[p]] 0 <= p < all.len() && !(step5 && p == sf.len() + idx) implies exists|
            pp: int,
        | 0 <= pp < fs.len() && #[trigger] fs[pp] == all[p] by {
            if step5 {
                if p == all.len() - 1 {
                    assert(fs[sf.len() + idx] == all[p]);
                } else {
                    assert(fs[p] == all[p]);
                }
            } else {
                assert(fs[p] == all[p]);
            }
        }
        assert forall|d: HexDir| o.is_free_cell(#[trigger] r.neighbor_spec(d)) implies self.is_forbidden_cell(
            r.neighbor_spec(d),
        ) || self.frontier().contains((r.neighbor_spec(d), Some(r))) by {
            let n = r.neighbor_spec(d);
            let kk = lemma_hex_dir_index(d);
            assert(n == neighbor_at(r, kk));
            if s0.is_forbidden_spec(n) {
                let j = choose|j: int| 0 <= j < sf.len() && #[trigger] sf[j].0 == n;
                assert(of[j] == sf[j]);
                assert(o.forbidden_cells()[j].0 == n);
            }
            assert(s0.free_at(r, kk));
            if coins[kk] {
                let jf = choose|jf: int| 0 <= jf < f.len() && f[jf] == (n, r);
                if step5 && jf == idx {
                    assert(ts[ts.len() - 1] == (n, Some(r)));
                } else {
                    assert(all[sf.len() + jf] == f[jf]);
                    let pp = choose|pp: int| 0 <= pp < fs.len() && #[trigger] fs[pp] == all[sf.len() + jf];
                    assert(self.forbidden_cells()[pp].0 == n);
                }
            } else {
                let jq = choose|jq: int| 0 <= jq < q.len() && q[jq] == (n, Some(r));
                assert(ts[s0.to_process@.len() + jq] == q[jq]);
            }
        }
        if o.forb_num == 0 {
            assert(fs.len() == 0);
        }
    }

    /// A grown cell with a free neighbor keeps one queued under it that is not forbidden.
    #[verifier::rlimit(40)]
    proof fn lemma_grew_queues_one(&self, o: &RandHexTree, s0: &RandHexTree, c: (Hex, ParentHex), coins: Seq<bool>)
        requires
            self.grew(o, s0, c, coins),
        ensures
            (exists|d: HexDir| o.is_free_cell(#[trigger] c.0.neighbor_spec(d))) ==> exists|k: int|
                0 <= k < self.frontier().len() && (#[trigger] self.frontier()[k]).1 == Some(c.0)
                    && adjacent(c.0, self.frontier()[k].0) && !self.is_forbidden_cell(
                    self.frontier()[k].0,
                ),
    {
        let r = c.0;
        assert(r.interior());
        let q = s0.queued_part(r, coins, 6);
        let f = s0.forbidden_part(r, coins, 6);
        s0.lemma_parts_shape(r, coins, 6);
        let sf = s0.forbidden@;
        let of = o.forbidden@;
        let fs = self.forbidden@;
        let ts = self.to_process@;
        let step5 = q.len() == 0 && f.len() > 0;
        let all = sf + f;
        let idx = if step5 {
            choose|idx: int|
                #![trigger f[idx]]
                0 <= idx < f.len() && fs == all.update(sf.len() + idx, all.last()).drop_last() && ts
                    == s0.to_process@.push((f[idx].0, Some(r)))
        } else {
            0
        };
        if exists|d: HexDir| o.is_free_cell(#[trigger] r.neighbor_spec(d)) {
            let d = choose|d: HexDir| o.is_free_cell(#[trigger] r.neighbor_spec(d));
            assert(q.len() > 0 || f.len() > 0) by {
                let kk = lemma_hex_dir_index(d);
                let n = r.neighbor_spec(d);
                if s0.is_forbidden_spec(n) {
                    let j = choose|j: int| 0 <= j < sf.len() && #[trigger] sf[j].0 == n;
                    assert(of[j] == sf[j]);
                    assert(o.forbidden_cells()[j].0 == n);
                }
                assert(s0.free_at(r, kk));
            }
            // The queued cell is free in `s0` and differs from every other
            // entry of `f`, so it is not forbidden at the end.
            if q.len() > 0 {
                assert(s0.queued_from(r, coins, 6, q[0]));
                let k0 = choose|kk: int|
                    0 <= kk < 6 && s0.free_at(r, kk) && !coins[kk] && q[0] == (
                        #[trigger] neighbor_at(r, kk),
                        Some(r),
                    );
                let m = q[0].0;
                lemma_neighbor_round_trip(r, hex_dir_at(k0)->0);
                assert(ts[s0.to_process@.len() as int] == q[0]);
                if self.is_forbidden_cell(m) {
                    let pp = choose|pp: int| 0 <= pp < fs.len() && #[trigger] self.forbidden_cells()[pp].0 == m;
                    assert(fs[pp] == all[pp]);
                    if pp < sf.len() {
                        assert(sf[pp].0 == m);
                    } else {
                        let kf = choose|kf: int|
                            0 <= kf < 6 && s0.free_at(r, kf) && coins[kf] && f[pp - sf.len()] == (
                                #[trigger] neighbor_at(r, kf),
                                r,
                            );
                        if kf != k0 {
                            lemma_neighbors_distinct(r, kf, k0);
                        }
                    }
                }
                assert(ts[s0.to_process@.len() as int].1 == Some(r));
                assert(m == r.neighbor_spec(hex_dir_at(k0)->0));
                assert(adjacent(r, m));
                assert(self.frontier()[s0.to_process@.len() as int] == q[0]);
            } else {
                let m = f[idx].0;
                let kf = choose|kf: int|
                    0 <= kf < 6 && s0.free_at(r, kf) && coins[kf] && f[idx] == (
                        #[trigger] neighbor_at(r, kf),
                        r,
                    );
                lemma_neighbor_round_trip(r, hex_dir_at(kf)->0);
                assert(ts[ts.len() - 1] == (m, Some(r)));
                assert(m == r.neighbor_spec(hex_dir_at(kf)->0));
                assert(adjacent(r, m));
                assert(self.frontier()[ts.len() - 1] == (m, Some(r)));
                if self.is_forbidden_cell(m) {
                    let pp = choose|pp: int| 0 <= pp < fs.len() && #[trigger] self.forbidden_cells()[pp].0 == m;
                    let p = if pp == sf.len() + idx { all.len() - 1 } else { pp };
                    assert(fs[pp] == all[p]);
                    assert(p != sf.len() + idx);
                    if p < sf.len() {
                        assert(sf[p].0 == m);
                        assert(s0.is_forbidden_spec(m));
                    } else {
                        assert(all[p] == f[p - sf.len()]);
                        assert(f[p - sf.len()].0 == m);
                        if p - sf.len() < idx {
                            assert(f[p - sf.len()].0 != f[idx].0);
                        } else {
                            assert(f[idx].0 != f[p - sf.len()].0);
                        }
                    }
                }
            }
        }
    }

}

/// A grown tree is connected: every cell reaches the start cell, the
/// root, through parent links, and every link joins two neighboring cells.
pub proof fn lemma_tree_connected(e: &RandHexTree)
    requires
        e.wf(),
    ensures
        e.tree_view().wf(),
        e.size() > 0 ==> e.tree_view().nodes()[0] == e.start(),
        forall|i: int| 0 <= i < e.size() ==> #[trigger] reaches_root(e.tree_view().parents(), i),
        forall|i: int|
            0 < i < e.size() ==> {
                &&& e.tree_view().parents()[i] < i
                &&& adjacent(
                    e.tree_view().nodes()[e.tree_view().parents()[i] as int],
                    #[trigger] e.tree_view().nodes()[i],
                )
            },
{
    assert forall|i: int| 0 <= i < e.size() implies #[trigger] reaches_root(
        e.tree_view().parents(),
        i,
    ) by {
        lemma_connected(&e.tree, i);
    }
}

/// Every neighbor of a tree cell is in the tree, forbidden, or queued; once
/// the tree has a root, every queued cell hangs from a tree cell next to it.
pub proof fn lemma_neighbors_accounted(e: &RandHexTree)
    requires
        e.wf(),
    ensures
        forall|i: int, d: HexDir|
            0 <= i < e.size() ==> {
                let n = #[trigger] e.tree_view().nodes()[i].neighbor_spec(d);
                ||| e.tree_view().nodes().contains(n)
                ||| e.is_forbidden_cell(n)
                ||| exists|j: int| 0 <= j < e.frontier().len() && (#[trigger] e.frontier()[j]).0 == n
            },
        e.size() > 0 ==> forall|j: int|
            0 <= j < e.frontier().len() ==> {
                &&& (#[trigger] e.frontier()[j]).1 is Some
                &&& e.tree_view().nodes().contains(e.frontier()[j].1->0)
                &&& adjacent(e.frontier()[j].1->0, e.frontier()[j].0)
            },
{
    let ns = e.tree_view().nodes();
    assert forall|i: int, d: HexDir| 0 <= i < e.size() implies {
        let n = #[trigger] ns[i].neighbor_spec(d);
        ||| ns.contains(n)
        ||| e.is_forbidden_cell(n)
        ||| exists|j: int| 0 <= j < e.frontier().len() && (#[trigger] e.frontier()[j]).0 == n
    } by {
        let n = ns[i].neighbor_spec(d);
        assert(e.covered(n));
        if e.is_forbidden_spec(n) {
            let j = choose|j: int| 0 <= j < e.forbidden@.len() && #[trigger] e.forbidden@[j].0 == n;
            assert(e.forbidden_cells()[j].0 == n);
        } else if e.is_queued(n) {
            let j = choose|j: int| 0 <= j < e.to_process@.len() && #[trigger] e.to_process@[j].0 == n;
            assert(e.frontier()[j].0 == n);
        }
    }
    assert forall|j: int| e.size() > 0 && 0 <= j < e.frontier().len() implies {
        &&& (#[trigger] e.frontier()[j]).1 is Some
        &&& ns.contains(e.frontier()[j].1->0)
        &&& adjacent(e.frontier()[j].1->0, e.frontier()[j].0)
    } by {
        assert(e.to_process@[j] == e.frontier()[j]);
    }
}

/// No forbidden cell is in the tree.
pub proof fn lemma_forbidden_outside_tree(e: &RandHexTree)
    requires
        e.wf(),
    ensures
        forall|j: int|
            0 <= j < e.forbidden_cells().len() ==> !e.tree_view().nodes().contains(
                (#[trigger] e.forbidden_cells()[j]).0,
            ),
{
    assert forall|j: int| 0 <= j < e.forbidden_cells().len() implies !e.tree_view().nodes().contains(
        (#[trigger] e.forbidden_cells()[j]).0,
    ) by {
        assert(e.forbidden@[j] == e.forbidden_cells()[j]);
    }
}

/// Each forbidden cell is next to the tree cell that discovered it, so a
/// forbidden cell can always be taken back with a parent.
pub proof fn lemma_forbidden_discovered(e: &RandHexTree)
    requires
        e.wf(),
    ensures
        forall|j: int|
            0 <= j < e.forbidden_cells().len() ==> e.tree_view().nodes().contains(
                (#[trigger] e.forbidden_cells()[j]).1,
            ) && adjacent(e.forbidden_cells()[j].1, e.forbidden_cells()[j].0),
{
    assert forall|j: int| 0 <= j < e.forbidden_cells().len() implies e.tree_view().nodes().contains(
        (#[trigger] e.forbidden_cells()[j]).1,
    ) && adjacent(e.forbidden_cells()[j].1, e.forbidden_cells()[j].0) by {
        assert(e.forbidden@[j] == e.forbidden_cells()[j]);
    }
}

/// Growth never stalls: while the grid has room, some candidate or some
/// forbidden cell is left to grow.
pub proof fn lemma_never_stalls(e: &RandHexTree)
    requires
        e.wf(),
        e.room_for(1),
    ensures
        e.frontier().len() > 0 || e.forbidden_cells().len() > 0,
{
    if e.size() > 0 {
        e.lemma_frontier_nonempty();
    }
}

/// No cell occurs twice in a grown tree.
pub proof fn lemma_no_duplicates(e: &RandHexTree)
    requires
        e.wf(),
    ensures
        e.tree_view().nodes().no_duplicates(),
{
}

/// With a zero probability no cell is ever forbidden.
pub proof fn lemma_zero_prob_never_forbids(e: &RandHexTree)
    requires
        e.wf(),
        e.forb_num() == 0,
    ensures
        e.forbidden_cells().len() == 0,
{
}

/// A cell stays covered when the tree is kept and the forbidden cells and
/// candidates only grow at their ends.
proof fn lemma_covered_grows(a: &RandHexTree, b: &RandHexTree, h: Hex)
    requires
        a.covered(h),
        a.tree == b.tree,
        a.forbidden@.len() <= b.forbidden@.len(),
        a.forbidden@ == b.forbidden@.subrange(0, a.forbidden@.len() as int),
        a.to_process@.len() <= b.to_process@.len(),
        a.to_process@ == b.to_process@.subrange(0, a.to_process@.len() as int),
    ensures
        b.covered(h),
{
    if a.is_forbidden_spec(h) {
        let i = choose|i: int| 0 <= i < a.forbidden@.len() && #[trigger] a.forbidden@[i].0 == h;
        assert(b.forbidden@[i] == a.forbidden@[i]);
    } else if a.is_queued(h) {
        let i = choose|i: int| 0 <= i < a.to_process@.len() && #[trigger] a.to_process@[i].0 == h;
        assert(b.to_process@[i] == a.to_process@[i]);
    }
}

/// Whether `keys` holds exactly the keys of the cells listed in `fs`.
spec fn keys_match(keys: Set<i64>, fs: Seq<(Hex, Hex)>) -> bool {
    forall|kk: i64|
        #[trigger] keys.contains(kk) <==> exists|i: int|
            0 <= i < fs.len() && cell_key(#[trigger] fs[i].0) == kk as int
}

/// Appending a cell and its key keeps keys and list in step.
proof fn lemma_keys_push(keys: Set<i64>, fs: Seq<(Hex, Hex)>, e: (Hex, Hex))
    requires
        keys_match(keys, fs),
    ensures
        keys_match(keys.insert(cell_key(e.0) as i64), fs.push(e)),
{
    let nfs = fs.push(e);
    let nkeys = keys.insert(cell_key(e.0) as i64);
    assert forall|kk: i64| #[trigger] nkeys.contains(kk) <==> exists|i: int|
        0 <= i < nfs.len() && cell_key(#[trigger] nfs[i].0) == kk as int by {
        if nkeys.contains(kk) {
            if kk == cell_key(e.0) as i64 {
                assert(nfs[fs.len() as int].0 == e.0);
            } else {
                let i = choose|i: int| 0 <= i < fs.len() && cell_key(#[trigger] fs[i].0) == kk as int;
                assert(nfs[i] == fs[i]);
            }
        }
        if exists|i: int| 0 <= i < nfs.len() && cell_key(#[trigger] nfs[i].0) == kk as int {
            let i = choose|i: int| 0 <= i < nfs.len() && cell_key(#[trigger] nfs[i].0) == kk as int;
            if i < fs.len() {
                assert(nfs[i] == fs[i]);
            }
        }
    }
}

/// Swap-removing a cell of a list of distinct cells of one grid, and its
/// key, keeps keys and list in step.
proof fn lemma_keys_swap_remove(keys: Set<i64>, fs: Seq<(Hex, Hex)>, i: int, size: HexSize)
    requires
        keys_match(keys, fs),
        0 <= i < fs.len(),
        forall|a: int, b: int| 0 <= a < b < fs.len() ==> fs[a].0 != fs[b].0,
        forall|a: int| 0 <= a < fs.len() ==> (#[trigger] fs[a]).0.size == size,
    ensures
        keys_match(keys.remove(cell_key(fs[i].0) as i64), fs.update(i, fs.last()).drop_last()),
{
    let k = cell_key(fs[i].0) as i64;
    let nfs = fs.update(i, fs.last()).drop_last();
    let nkeys = keys.remove(k);
    let last = fs.len() - 1;
    assert forall|kk: i64| #[trigger] nkeys.contains(kk) <==> exists|a: int|
        0 <= a < nfs.len() && cell_key(#[trigger] nfs[a].0) == kk as int by {
        if nkeys.contains(kk) {
            let a = choose|a: int| 0 <= a < fs.len() && cell_key(#[trigger] fs[a].0) == kk as int;
            if a == i {
                assert(kk == k);
            } else if a == last {
                assert(nfs[i] == fs[a]);
            } else {
                assert(nfs[a] == fs[a]);
            }
        }
        if exists|a: int| 0 <= a < nfs.len() && cell_key(#[trigger] nfs[a].0) == kk as int {
            let a = choose|a: int| 0 <= a < nfs.len() && cell_key(#[trigger] nfs[a].0) == kk as int;
            let a2 = if a == i { last } else { a };
            assert(nfs[a] == fs[a2]);
            assert(a2 != i);
            if kk == k {
                lemma_cell_key_injective(fs[a2].0, fs[i].0);
                assert(fs[a2].0.size == size && fs[i].0.size == size);
                if a2 < i {
                    assert(fs[a2].0 != fs[i].0);
                } else {
                    assert(fs[i].0 != fs[a2].0);
                }
            }
            assert(keys.contains(kk));
        }
    }
}

/// The parts of two states agree where the same neighbors are free.
proof fn lemma_parts_agree(a: &RandHexTree, b: &RandHexTree, hex: Hex, coins: Seq<bool>, k: int)
    requires
        forall|kk: int| 0 <= kk < k ==> a.free_at(hex, kk) == b.free_at(hex, kk),
    ensures
        a.queued_part(hex, coins, k) == b.queued_part(hex, coins, k),
        a.forbidden_part(hex, coins, k) == b.forbidden_part(hex, coins, k),
    decreases k,
{
    if k > 0 {
        lemma_parts_agree(a, b, hex, coins, k - 1);
    }
}

/// The neighbor of `hex` at position `k` of the canonical order.
pub open spec fn neighbor_at(hex: Hex, k: int) -> Hex {
    hex.neighbor_spec(hex_dir_at(k)->0)
}

/// The six neighbors of a cell are distinct.
proof fn lemma_neighbors_distinct(hex: Hex, a: int, b: int)
    requires
        hex.interior(),
        0 <= a < 6,
        0 <= b < 6,
        a != b,
    ensures
        neighbor_at(hex, a) != neighbor_at(hex, b),
{
}

/// The position of a cell with the largest `x` in a nonempty sequence.
proof fn lemma_max_x(s: Seq<Hex>) -> (m: int)
    requires
        s.len() > 0,
    ensures
        0 <= m < s.len(),
        forall|j: int| 0 <= j < s.len() ==> s[j].x <= s[m].x,
    decreases s.len(),
{
    if s.len() == 1 {
        0
    } else {
        let t = s.drop_last();
        let m0 = lemma_max_x(t);
        assert(forall|j: int| 0 <= j < t.len() ==> t[j] == s[j]);
        if s[m0].x >= s.last().x {
            m0
        } else {
            s.len() - 1
        }
    }
}

} // verus!
