use hex_tree::unit_block::UnitBlock;

// The blocks that hold the points (3.2, 2.8) and (-2.2, -2.8).
fn init_test_unit_block() -> UnitBlock {
    UnitBlock::at(3, 2)
}

fn init_negative_test_unit_block() -> UnitBlock {
    UnitBlock::at(-3, -3)
}

#[test]
fn origin() {
    let ub = init_test_unit_block();
    assert_eq!(ub.origin(), (3, 2));

    let nub = init_negative_test_unit_block();
    assert_eq!(nub.origin(), (-3, -3));
}

#[test]
fn right_block() {
    let ub = init_test_unit_block();
    assert_eq!(ub.right_block().origin(), (4, 2));

    let nub = init_negative_test_unit_block();
    assert_eq!(nub.right_block().origin(), (-2, -3));
}

#[test]
fn top_block() {
    let ub = init_test_unit_block();
    assert_eq!(ub.top_block().origin(), (3, 3));

    let nub = init_negative_test_unit_block();
    assert_eq!(nub.top_block().origin(), (-3, -2));
}

#[test]
fn central() {
    let ub = init_test_unit_block();
    assert!(!ub.central());

    let nub = init_negative_test_unit_block();
    assert!(nub.central());
}

// Cell size (19, 17) and offset (9.5, 8.5): the unit is (14.25, 8.5).
// (45, 23) and (45, 22) fall in block (2, 1), left of its diagonal: cell (2, 2),
// centered at (38, 25.5). (45, 18) falls in block (2, 1), right of it: cell
// (3, 1), centered at (52.25, 17). (-23, -42) falls in block (-3, -6), right of
// it: cell (-2, -6), centered at (-19, -42.5).
#[test]
fn hex_block_of_field_points() {
    let b = UnitBlock::at(2, 1);
    assert!(!b.central());
    assert_eq!(b.hex_block(true), UnitBlock::at(2, 2));
    assert_eq!(b.hex_block(false), UnitBlock::at(3, 1));

    let nb = UnitBlock::at(-3, -6);
    assert!(!nb.central());
    assert_eq!(nb.hex_block(false), UnitBlock::at(-2, -6));
}

#[test]
fn hex_block_of_central_blocks() {
    let b = UnitBlock::at(1, 1);
    assert!(b.central());
    assert_eq!(b.hex_block(true), b);
    assert_eq!(b.hex_block(false), UnitBlock::at(2, 2));
    let nb = UnitBlock::at(-1, -3);
    assert!(nb.central());
    assert!(nb.hex_block(false).central());
}
