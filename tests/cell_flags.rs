use wire_circuit::cell::{
    Cell, CellBits, DESIGN, DOWN, GOAL, HORIZONTAL, LEFT, MATERIAL, PROTECTED, QUEUED, RIGHT,
    SIGNAL, UP, VERTICAL, WIRE,
};
use wire_circuit::rule::wire_successor;

fn cell(b: u8) -> Cell {
    Cell::from_bits(b).unwrap()
}

#[test]
fn every_byte_names_flags() {
    for b in 0..=255u8 {
        let c = Cell::from_bits(b).expect("all eight bits are flags");
        assert_eq!(c.bits(), b);
    }
    assert_eq!(Cell::from_bits_truncate(0xA5).bits(), 0xA5);
    assert_eq!(Cell::empty().bits(), 0);
}

#[test]
fn set_algebra() {
    let mut c = cell(WIRE | RIGHT);
    c.insert(cell(UP));
    assert_eq!(c.bits(), WIRE | RIGHT | UP);
    c.remove(cell(RIGHT | GOAL));
    assert_eq!(c.bits(), WIRE | UP);
    c.toggle(cell(UP | LEFT));
    assert_eq!(c.bits(), WIRE | LEFT);
    c.set(cell(PROTECTED), true);
    assert_eq!(c.bits(), WIRE | LEFT | PROTECTED);
    c.set(cell(WIRE), false);
    assert_eq!(c.bits(), LEFT | PROTECTED);
    assert!(c.contains(cell(LEFT | PROTECTED)));
    assert!(!c.contains(cell(LEFT | WIRE)));
    assert!(c.intersects(cell(LEFT | WIRE)));
    assert!(!c.intersects(cell(WIRE | DOWN)));
    assert_eq!(cell(0b1100).union(cell(0b0110)).bits(), 0b1110);
    assert_eq!(cell(0b1100).intersection(cell(0b0110)).bits(), 0b0100);
    assert_eq!(cell(0b1100).symmetric_difference(cell(0b0110)).bits(), 0b1010);
}

#[test]
fn named_masks() {
    assert_eq!(CellBits::Wire.bits(), 0b0000_0001);
    assert_eq!(CellBits::Protected.bits(), 0b0000_0010);
    assert_eq!(CellBits::Goal.bits(), 0b0000_0100);
    assert_eq!(CellBits::Queued.bits(), 0b0000_1000);
    assert_eq!(CellBits::Right.bits(), 0b0001_0000);
    assert_eq!(CellBits::Down.bits(), 0b0010_0000);
    assert_eq!(CellBits::Left.bits(), 0b0100_0000);
    assert_eq!(CellBits::Up.bits(), 0b1000_0000);
    assert_eq!(CellBits::Design.bits(), 0b0000_0111);
    assert_eq!(CellBits::Signal.bits(), 0b1111_0000);
    assert_eq!(CellBits::Material.bits(), 0b1111_0001);
    assert_eq!(CellBits::Horizontal.bits(), 0b0011_0000);
    assert_eq!(CellBits::Vertical.bits(), 0b1100_0000);
    assert_eq!(DESIGN, WIRE | PROTECTED | GOAL);
    assert_eq!(SIGNAL, RIGHT | DOWN | LEFT | UP);
    assert_eq!(MATERIAL, SIGNAL | WIRE);
    assert_eq!(HORIZONTAL, RIGHT | DOWN);
    assert_eq!(VERTICAL, LEFT | UP);
    assert_eq!(CellBits::Goal.cell().bits(), GOAL);
    assert_eq!(QUEUED, 8);
}

#[test]
fn successor_receives_from_neighbours() {
    let w = cell(WIRE);
    let none = Cell::empty();
    // Received from the left on a straight run; the cell's own signal is not kept.
    let r = wire_successor(cell(WIRE | GOAL | LEFT), cell(WIRE | RIGHT), w, none, none);
    assert_eq!(r.bits(), WIRE | GOAL | RIGHT);
    let r = wire_successor(w, w, cell(WIRE | LEFT), none, none);
    assert_eq!(r.bits(), WIRE | LEFT);
    let r = wire_successor(w, none, none, cell(WIRE | DOWN), cell(WIRE | UP));
    assert_eq!(r.bits(), WIRE | DOWN | UP);
    // The scheduler bit of the cell is not carried.
    let r = wire_successor(cell(WIRE | QUEUED), w, w, none, none);
    assert_eq!(r.bits(), WIRE);
}

#[test]
fn successor_bends_at_dead_ends() {
    let w = cell(WIRE);
    let none = Cell::empty();
    // Horizontal dead end on the right, wire below: signal flowing right turns down.
    let r = wire_successor(cell(WIRE | RIGHT), w, none, none, w);
    assert_eq!(r.bits(), WIRE | DOWN);
    // Without signal at the corner, a corner with a wire below injects nothing.
    let r = wire_successor(w, w, none, none, w);
    assert_eq!(r.bits(), WIRE);
    // Dead end on the left, wire above: signal flowing left turns up.
    let r = wire_successor(cell(WIRE | LEFT), none, w, w, none);
    assert_eq!(r.bits(), WIRE | UP);
    // A vertical dead end from above into a wire on the right: flowing down turns right.
    let r = wire_successor(cell(WIRE | DOWN), none, w, w, none);
    assert_eq!(r.bits() & (RIGHT | LEFT), RIGHT);
}
