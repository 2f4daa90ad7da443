use hex_tree::hex::{Hex, HexSize};
use hex_tree::rand_tree::{valid_forb_prob, RandHexTree};
use hex_tree::tree::HexTree;
use rand::rngs::StdRng;
use rand::SeedableRng;
use std::collections::HashSet;

fn size20() -> HexSize {
    HexSize { width_bits: 20f32.to_bits(), height_bits: 20f32.to_bits() }
}

// Center (20, 20) with size (20, 20): in units of (15, 10) the bucket is (1, 2).
fn start_hex() -> Hex {
    Hex::new(1, 2, size20())
}

fn default_tree(seed: u64) -> RandHexTree {
    RandHexTree::with_capacity(start_hex(), 1, 2, StdRng::seed_from_u64(seed), 200)
}

fn is_adjacent(a: &Hex, b: &Hex) -> bool {
    let dx = (b.x - a.x).abs();
    let dy = (b.y - a.y).abs();
    a.size == b.size && ((dx == 0 && dy == 2) || (dx == 1 && dy == 1))
}

fn check_tree(tree: &HexTree, start: Hex) {
    let hexes = tree.hexes();
    assert_eq!(tree.root(), Some(start));
    let distinct: HashSet<Hex> = hexes.iter().cloned().collect();
    assert_eq!(distinct.len(), hexes.len());
    for h in hexes.iter() {
        let mut cur = *h;
        let mut steps = 0;
        while let Some(p) = tree.parent(&cur) {
            assert!(tree.contains(&p));
            assert!(is_adjacent(&p, &cur));
            cur = p;
            steps += 1;
            assert!(steps <= hexes.len());
        }
        assert_eq!(cur, start);
    }
}

#[test]
fn hex_count() {
    for i in 50..1000 {
        let mut tree = default_tree(i as u64);
        tree.add_hexes(i);
        assert_eq!(tree.tree().len(), i);
    }
}

#[test]
fn first_hex_is_the_start() {
    let mut t = RandHexTree::new(start_hex(), 1, 2, StdRng::seed_from_u64(3));
    assert_eq!(t.tree().len(), 0);
    assert_eq!(t.add_hex(), start_hex());
    assert_eq!(t.tree().len(), 1);
    let second = t.add_hex();
    assert!(is_adjacent(&start_hex(), &second));
    assert_eq!(t.tree().parent(&second), Some(start_hex()));
}

#[test]
fn grown_tree_is_connected_without_duplicates() {
    for seed in 0..10u64 {
        let mut t = default_tree(seed);
        let grown = t.add_hexes(300);
        assert_eq!(grown.len(), 300);
        assert_eq!(t.tree().hexes(), &grown);
        check_tree(t.tree(), start_hex());
    }
}

#[test]
fn same_seed_same_sequence() {
    let mut a = RandHexTree::new(start_hex(), 3, 10, StdRng::seed_from_u64(42));
    let mut b = RandHexTree::new(start_hex(), 3, 10, StdRng::seed_from_u64(42));
    let ha = a.add_hexes(400);
    let hb = b.add_hexes(400);
    assert_eq!(ha, hb);
    for _ in 0..50 {
        assert_eq!(a.add_hex(), b.add_hex());
    }
}

#[test]
fn forb_prob_bounds() {
    assert!(!valid_forb_prob(9, 10));
    assert!(!valid_forb_prob(1, 1));
    assert!(!valid_forb_prob(0, 0));
    assert!(valid_forb_prob(0, 1));
    assert!(valid_forb_prob(89, 100));
    assert!(valid_forb_prob(899, 1000));
}

#[test]
fn zero_prob_never_forbids() {
    for seed in 0..20u64 {
        let mut t = RandHexTree::new(start_hex(), 0, 1, StdRng::seed_from_u64(seed));
        for _ in 0..200 {
            t.add_hex();
            assert_eq!(t.forbidden_count(), 0);
        }
    }
}

#[test]
fn high_prob_often_forbids() {
    let mut with_forbidden = 0;
    for seed in 0..20u64 {
        let mut t = RandHexTree::new(start_hex(), 89, 100, StdRng::seed_from_u64(seed));
        t.add_hexes(50);
        if t.forbidden_count() > 0 {
            with_forbidden += 1;
        }
    }
    assert!(with_forbidden >= 10);
}

#[test]
fn growth_under_extreme_thinning() {
    for seed in 0..20u64 {
        let mut t = RandHexTree::new(start_hex(), 89, 100, StdRng::seed_from_u64(seed));
        t.add_hexes(1000);
        assert_eq!(t.tree().len(), 1000);
        check_tree(t.tree(), start_hex());
    }
}

#[test]
fn room_near_the_coordinate_limits() {
    let edge = Hex::new(i32::MAX - 3, 0, size20());
    let t = RandHexTree::new(edge, 1, 2, StdRng::seed_from_u64(1));
    assert!(t.has_room_for(2));
    assert!(!t.has_room_for(3));
    let t = default_tree(1);
    assert!(t.has_room_for(1000));
}

#[test]
fn tree_store_links() {
    let s = size20();
    let mut t = HexTree::new();
    assert!(t.is_empty());
    assert_eq!(t.root(), None);
    let a = Hex::new(0, 0, s);
    let b = Hex::new(1, 1, s);
    let c = Hex::new(1, 3, s);
    t.reset_root(a);
    t.insert(b, &a);
    t.insert(c, &b);
    assert_eq!(t.len(), 3);
    assert!(t.contains(&c));
    assert!(!t.contains(&Hex::new(0, 2, s)));
    assert!(!t.contains(&Hex::new(1, 1, HexSize { width_bits: 0, height_bits: 0 })));
    assert_eq!(t.parent(&c), Some(b));
    assert_eq!(t.parent(&b), Some(a));
    assert_eq!(t.parent(&a), None);
    assert_eq!(t.root(), Some(a));
}

#[test]
fn capacity_is_only_a_hint() {
    let mut a = RandHexTree::new(start_hex(), 1, 2, StdRng::seed_from_u64(9));
    let mut b = RandHexTree::with_capacity(start_hex(), 1, 2, StdRng::seed_from_u64(9), 5000);
    assert_eq!(a.add_hexes(300), b.add_hexes(300));
    assert_eq!(a.forbidden_count(), b.forbidden_count());
}
