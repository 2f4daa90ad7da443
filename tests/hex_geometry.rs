use hex_tree::hex::{GridPoint, Hex, HexDir, HexDirIter, HexSize, VertexDir, VertexDirIter};

fn size(width: f32, height: f32) -> HexSize {
    HexSize { width_bits: width.to_bits(), height_bits: height.to_bits() }
}

// Center (1, 1) with size (2, 1): in units of (1.5, 0.5) the bucket is (0, 2).
fn default_hex() -> Hex {
    Hex::new(0, 2, size(2f32, 1f32))
}

const ALL_DIRS: [HexDir; 6] = [
    HexDir::Top,
    HexDir::RightTop,
    HexDir::RightBot,
    HexDir::Bot,
    HexDir::LeftBot,
    HexDir::LeftTop,
];

#[test]
fn top() {
    let h = default_hex();
    assert_eq!(h.top_hex().left_bot_vert(), h.left_top_vert());
    assert_eq!(h.top_hex().right_bot_vert(), h.right_top_vert());
}

#[test]
fn top_right() {
    let h = default_hex();
    assert_eq!(h.right_top_hex().left_bot_vert(), h.right_vert());
    assert_eq!(h.right_top_hex().left_vert(), h.right_top_vert());
}

#[test]
fn bot_right() {
    let h = default_hex();
    assert_eq!(h.right_bot_hex().left_top_vert(), h.right_vert());
    assert_eq!(h.right_bot_hex().left_vert(), h.right_bot_vert());
}

#[test]
fn bot() {
    let h = default_hex();
    assert_eq!(h.bot_hex().left_top_vert(), h.left_bot_vert());
    assert_eq!(h.bot_hex().right_top_vert(), h.right_bot_vert());
}

#[test]
fn bot_left() {
    let h = default_hex();
    assert_eq!(h.left_bot_hex().right_vert(), h.left_bot_vert());
    assert_eq!(h.left_bot_hex().right_top_vert(), h.left_vert());
}

#[test]
fn top_left() {
    let h = default_hex();
    assert_eq!(h.left_top_hex().right_vert(), h.left_top_vert());
    assert_eq!(h.left_top_hex().right_bot_vert(), h.left_vert());
}

#[test]
fn neighbor_round_trip_every_direction() {
    let h = Hex::new(-7, 13, size(19f32, 17f32));
    for d in ALL_DIRS {
        assert_eq!(h.neighbor(d).neighbor(d.opposite()), h);
        assert_ne!(h.neighbor(d), h);
    }
}

#[test]
fn neighbor_offsets() {
    let h = Hex::new(4, -6, size(20f32, 20f32));
    assert_eq!(h.top_hex(), Hex::new(4, -4, h.size()));
    assert_eq!(h.right_top_hex(), Hex::new(5, -5, h.size()));
    assert_eq!(h.right_bot_hex(), Hex::new(5, -7, h.size()));
    assert_eq!(h.bot_hex(), Hex::new(4, -8, h.size()));
    assert_eq!(h.left_bot_hex(), Hex::new(3, -7, h.size()));
    assert_eq!(h.left_top_hex(), Hex::new(3, -5, h.size()));
    assert_eq!(h.hex_dir_to_vec(HexDir::RightTop), GridPoint { x: 3, y: 1 });
    assert_eq!(h.hex_dir_to_vec(HexDir::Bot), GridPoint { x: 0, y: -2 });
}

#[test]
fn equality_needs_same_size() {
    let a = Hex::new(1, 1, size(2f32, 1f32));
    let b = Hex::new(1, 1, size(2f32, 2f32));
    assert_ne!(a, b);
    assert_eq!(a, Hex::new(1, 1, size(2f32, 1f32)));
}

#[test]
fn center_and_corners() {
    let h = Hex::new(2, -3, size(4f32, 2f32));
    assert_eq!(h.center(), GridPoint { x: 6, y: -3 });
    assert_eq!(h.vertex(VertexDir::Right), GridPoint { x: 8, y: -3 });
    assert_eq!(h.vertex(VertexDir::LeftTop), GridPoint { x: 5, y: -2 });
    assert_eq!(h.vec_to_vertex(VertexDir::Left), GridPoint { x: -2, y: 0 });
}

#[test]
fn direction_iterators_stop_after_six() {
    let mut dirs = HexDirIter::new();
    for d in ALL_DIRS {
        assert_eq!(dirs.next(), Some(d));
    }
    assert_eq!(dirs.next(), None);
    assert_eq!(dirs.next(), None);

    let mut corners = VertexDirIter::new();
    let mut n = 0;
    while corners.next().is_some() {
        n += 1;
    }
    assert_eq!(n, 6);
}

#[test]
fn neighbors_come_in_canonical_order() {
    let h = default_hex();
    let mut it = h.neighbors();
    for d in ALL_DIRS {
        assert_eq!(it.next(), Some(h.neighbor(d)));
    }
    assert_eq!(it.next(), None);

    let mut corners = h.vertices();
    assert_eq!(corners.next(), Some(h.left_top_vert()));
    assert_eq!(corners.next(), Some(h.right_top_vert()));
    assert_eq!(corners.next(), Some(h.right_vert()));
    assert_eq!(corners.next(), Some(h.right_bot_vert()));
    assert_eq!(corners.next(), Some(h.left_bot_vert()));
    assert_eq!(corners.next(), Some(h.left_vert()));
    assert_eq!(corners.next(), None);
}

#[test]
fn it_works() {
    assert_eq!(2 + 2, 4);
}
