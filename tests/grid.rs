use wire_circuit::cell::{DOWN, GOAL, LEFT, PROTECTED, QUEUED, RIGHT, SIGNAL, UP, WIRE};
use wire_circuit::Circuit;

/// The flags at `(x, y)` without the scheduler bit.
fn flags(c: &Circuit, x: usize, y: usize) -> u8 {
    c.get_cell(x, y) & !QUEUED
}

fn all_flags(c: &Circuit) -> Vec<u8> {
    let mut v = Vec::new();
    for y in 0..c.get_height() {
        for x in 0..c.get_width() {
            v.push(c.get_cell(x, y));
        }
    }
    v
}

#[test]
fn construction_rejects_bad_sizes() {
    assert!(Circuit::try_new(0, 5).is_none());
    assert!(Circuit::try_new(5, 0).is_none());
    assert!(Circuit::try_new(0, 0).is_none());
    assert!(Circuit::try_new(usize::MAX, 2).is_none());
    assert!(Circuit::try_new(usize::MAX / 2 + 1, 2).is_none());
    let c = Circuit::try_new(1, 1).expect("a one-cell grid can be made");
    assert_eq!(c.get_width(), 1);
    assert_eq!(c.get_height(), 1);
}

#[test]
fn new_grid_is_empty() {
    let c = Circuit::new(4, 3);
    assert_eq!(c.get_width(), 4);
    assert_eq!(c.get_height(), 3);
    assert_eq!(all_flags(&c), vec![0u8; 12]);
    assert_eq!(c.cells().len(), 12);
}

#[test]
fn indexing() {
    let c = Circuit::new(5, 4);
    assert_eq!(c.index(0, 0), 0);
    assert_eq!(c.index(4, 3), 19);
    assert_eq!(c.index(2, 1), 7);
    assert_eq!(c.strict_index(2, 1), Some(7));
    assert_eq!(c.strict_index(3, 2), Some(13));
    // The border ring.
    assert_eq!(c.strict_index(0, 1), None);
    assert_eq!(c.strict_index(1, 0), None);
    assert_eq!(c.strict_index(4, 1), None);
    assert_eq!(c.strict_index(1, 3), None);
    // Off the grid.
    assert_eq!(c.strict_index(5, 1), None);
    assert_eq!(c.strict_index(1, 4), None);
    assert_eq!(c.strict_index(usize::MAX, usize::MAX), None);
    // Grids too small to have an interior.
    let thin = Circuit::new(2, 2);
    assert_eq!(thin.strict_index(1, 1), None);
    let one = Circuit::new(1, 1);
    assert_eq!(one.strict_index(0, 0), None);
}

#[test]
fn edits_read_back() {
    let mut c = Circuit::new(4, 4);
    c.set_cell(1, 1, WIRE | RIGHT);
    assert_eq!(c.get_cell(1, 1), WIRE | RIGHT);
    c.add_to_cell(1, 1, GOAL);
    assert_eq!(c.get_cell(1, 1), WIRE | RIGHT | GOAL);
    c.sub_from_cell(1, 1, RIGHT | PROTECTED);
    assert_eq!(c.get_cell(1, 1), WIRE | GOAL);
    c.toggle_in_cell(1, 1, GOAL | UP);
    assert_eq!(c.get_cell(1, 1), WIRE | UP);
    c.set_in_cell(1, 1, PROTECTED, true);
    assert_eq!(c.get_cell(1, 1), WIRE | UP | PROTECTED);
    c.set_in_cell(1, 1, UP, false);
    assert_eq!(c.get_cell(1, 1), WIRE | PROTECTED);
    c.set_cell(2, 2, 0xFF);
    assert_eq!(c.get_cell(2, 2), 0xFF);
}

#[test]
fn border_edits_change_nothing() {
    let mut c = Circuit::new(4, 4);
    c.set_cell(1, 1, WIRE);
    let before = all_flags(&c);
    for &(x, y) in &[(0usize, 0usize), (0, 1), (3, 2), (2, 3), (4, 1), (1, 9)] {
        c.set_cell(x, y, WIRE);
        c.add_to_cell(x, y, GOAL);
        c.sub_from_cell(x, y, WIRE);
        c.toggle_in_cell(x, y, RIGHT);
        c.set_in_cell(x, y, LEFT, true);
    }
    assert_eq!(all_flags(&c), before);
}

#[test]
fn edit_forces_full_scan() {
    // Once the grid is quiet the queue is empty; an edit must still be seen by the next tick.
    let mut c = Circuit::new(5, 3);
    c.set_cell(1, 1, WIRE);
    c.set_cell(2, 1, WIRE);
    c.set_cell(3, 1, WIRE);
    for _ in 0..4 {
        c.tick();
    }
    c.set_cell(3, 1, WIRE | LEFT);
    c.tick();
    assert_eq!(flags(&c, 2, 1), WIRE | LEFT);
}

#[test]
fn five_by_three_row() {
    let mut c = Circuit::new(5, 3);
    c.set_cell(1, 1, WIRE | RIGHT);
    c.set_cell(2, 1, WIRE);
    c.set_cell(3, 1, WIRE);
    c.tick();
    assert_eq!(flags(&c, 2, 1), WIRE | RIGHT);
    // Its left neighbour is the border, so the edited bit is not derived again.
    assert_eq!(flags(&c, 1, 1), WIRE);
    assert_eq!(flags(&c, 3, 1), WIRE);
    c.tick();
    assert_eq!(flags(&c, 3, 1), WIRE | RIGHT);
    assert_eq!(flags(&c, 2, 1), WIRE);
    c.tick();
    assert_eq!(flags(&c, 3, 1), WIRE);
    // The border never carries anything.
    for x in 0..5 {
        assert_eq!(c.get_cell(x, 0), 0);
        assert_eq!(c.get_cell(x, 2), 0);
    }
}

#[test]
fn straight_wire_carries_a_pulse() {
    let n = 8;
    let mut c = Circuit::new(n + 2, 3);
    for x in 1..=n {
        c.set_cell(x, 1, WIRE);
    }
    c.add_to_cell(1, 1, RIGHT);
    for t in 1..n {
        c.tick();
        for x in 1..=n {
            let expected = if x == 1 + t { WIRE | RIGHT } else { WIRE };
            assert_eq!(flags(&c, x, 1), expected, "tick {} cell {}", t, x);
        }
    }
    c.tick();
    for x in 1..=n {
        assert_eq!(flags(&c, x, 1), WIRE);
    }
}

#[test]
fn straight_column_carries_a_pulse_upwards() {
    let mut c = Circuit::new(3, 6);
    for y in 1..5 {
        c.set_cell(1, y, WIRE);
    }
    c.add_to_cell(1, 4, UP);
    for t in 1..4 {
        c.tick();
        for y in 1..5 {
            let expected = if y == 4 - t { WIRE | UP } else { WIRE };
            assert_eq!(flags(&c, 1, y), expected);
        }
    }
}

#[test]
fn bend_turns_into_perpendicular_wire() {
    // A row from (1, 1) to (3, 1) that ends above a column from (3, 2) to (3, 3).
    let mut c = Circuit::new(5, 5);
    for &(x, y) in &[(1usize, 1usize), (2, 1), (3, 1), (3, 2), (3, 3)] {
        c.set_cell(x, y, WIRE);
    }
    c.add_to_cell(1, 1, RIGHT);
    c.tick();
    assert_eq!(flags(&c, 2, 1), WIRE | RIGHT);
    c.tick();
    // The signal reaches the corner.
    assert_eq!(flags(&c, 3, 1), WIRE | RIGHT);
    assert_eq!(flags(&c, 3, 2), WIRE);
    c.tick();
    // One tick later the corner sends it down.
    assert_eq!(flags(&c, 3, 1), WIRE | DOWN);
    assert_eq!(flags(&c, 3, 2), WIRE);
    c.tick();
    assert_eq!(flags(&c, 3, 1), WIRE);
    assert_eq!(flags(&c, 3, 2), WIRE | DOWN);
    c.tick();
    assert_eq!(flags(&c, 3, 2), WIRE);
    assert_eq!(flags(&c, 3, 3), WIRE | DOWN);
}

#[test]
fn full_and_incremental_ticks_agree() {
    let build = || {
        let mut c = Circuit::new(7, 7);
        for x in 1..6 {
            c.set_cell(x, 1, WIRE);
            c.set_cell(x, 5, WIRE);
        }
        for y in 1..6 {
            c.set_cell(5, y, WIRE);
            c.set_cell(1, y, WIRE);
        }
        c.set_cell(3, 3, WIRE | GOAL);
        c.add_to_cell(2, 1, RIGHT);
        c.add_to_cell(1, 4, UP | DOWN);
        c
    };
    let mut incremental = build();
    let mut full = build();
    for _ in 0..20 {
        incremental.tick();
        full.force_full_update();
        full.tick();
        for y in 0..7 {
            for x in 0..7 {
                assert_eq!(flags(&incremental, x, y), flags(&full, x, y));
            }
        }
    }
}

#[test]
fn grid_without_wire_is_fixed() {
    let mut c = Circuit::new(5, 4);
    c.set_cell(1, 1, PROTECTED | RIGHT);
    c.set_cell(2, 2, GOAL | SIGNAL);
    c.set_cell(3, 1, DOWN | LEFT);
    let before = all_flags(&c);
    for _ in 0..5 {
        c.tick();
        assert_eq!(all_flags(&c), before);
    }
}

#[test]
fn resize_keeps_common_interior() {
    let mut c = Circuit::new(5, 5);
    for y in 1..4 {
        for x in 1..4 {
            c.set_cell(x, y, WIRE | ((x * 4 + y) as u8) << 4);
        }
    }
    let old: Vec<Vec<u8>> = (0..5).map(|y| (0..5).map(|x| c.get_cell(x, y)).collect()).collect();
    c.resize(4, 6);
    assert_eq!(c.get_width(), 4);
    assert_eq!(c.get_height(), 6);
    for y in 0..6 {
        for x in 0..4 {
            let kept = (1..3).contains(&x) && (1..4).contains(&y);
            let expected = if kept { old[y][x] } else { 0 };
            assert_eq!(c.get_cell(x, y), expected, "cell ({}, {})", x, y);
        }
    }
    c.resize(2, 2);
    assert_eq!(all_flags(&c), vec![0u8; 4]);
}

#[test]
fn cells_exposed_in_place() {
    let mut c = Circuit::new(4, 3);
    c.set_cell(2, 1, WIRE | GOAL);
    assert_eq!(c.cells()[6].bits(), WIRE | GOAL);
    {
        let cells = c.cells_mut();
        assert_eq!(cells.len(), 12);
        cells[5] = wire_circuit::Cell::from_bits(WIRE).unwrap();
    }
    assert_eq!(c.get_cell(1, 1), WIRE);
}

#[test]
fn forced_full_scan_changes_nothing_when_settled() {
    let mut a = Circuit::new(6, 4);
    for x in 1..5 {
        a.set_cell(x, 1, WIRE);
        a.set_cell(x, 2, WIRE);
    }
    a.add_to_cell(1, 1, RIGHT);
    a.tick();
    a.tick();
    let before = all_flags(&a);
    let mut b = Circuit::new(6, 4);
    for y in 0..4 {
        for x in 0..6 {
            b.set_cell(x, y, before[y * 6 + x] & !QUEUED);
        }
    }
    a.tick();
    b.tick();
    for y in 0..4 {
        for x in 0..6 {
            assert_eq!(flags(&a, x, y), flags(&b, x, y));
        }
    }
}
