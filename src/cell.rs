use vstd::prelude::*;

verus! {

/// Design bit: the cell conducts signal.
pub const WIRE: u8 = 0b0000_0001;

/// Design bit: the cell may not be edited by a player.
pub const PROTECTED: u8 = 0b0000_0010;

/// Design bit: the cell is a goal.
pub const GOAL: u8 = 0b0000_0100;

/// Scheduler bit: the cell is already pending re-evaluation.
pub const QUEUED: u8 = 0b0000_1000;

/// Signal bit: signal flows towards the right.
pub const RIGHT: u8 = 0b0001_0000;

/// Signal bit: signal flows downwards.
pub const DOWN: u8 = 0b0010_0000;

/// Signal bit: signal flows towards the left.
pub const LEFT: u8 = 0b0100_0000;

/// Signal bit: signal flows upwards.
pub const UP: u8 = 0b1000_0000;

/// All design bits.
pub const DESIGN: u8 = 0b0000_0111;

/// All signal bits.
pub const SIGNAL: u8 = 0b1111_0000;

/// Signal bits together with the wire bit.
pub const MATERIAL: u8 = 0b1111_0001;

/// The right and down signal bits.
pub const HORIZONTAL: u8 = 0b0011_0000;

/// The left and up signal bits.
pub const VERTICAL: u8 = 0b1100_0000;

/// Every bit that names a flag.
pub const ALL_FLAGS: u8 = 0b1111_1111;

/// Every bit but the scheduler bit.
pub const NOT_QUEUED: u8 = 0b1111_0111;

/// True when `b` holds at least one bit of `mask`.
pub open spec fn has_any(b: u8, mask: u8) -> bool {
    b & mask != 0
}

/// True when `b` holds the wire bit.
pub open spec fn is_wire(b: u8) -> bool {
    has_any(b, WIRE)
}

/// `b` without its scheduler bit.
pub open spec fn clear_queued(b: u8) -> u8 {
    b & NOT_QUEUED
}

/// The named flags of a cell, as one byte.
#[derive(Clone, Copy, PartialEq, Eq, Structural, Debug, Hash)]
pub struct Cell {
    bits: u8,
}

impl View for Cell {
    type V = u8;

    open spec fn view(&self) -> u8 {
        self.spec_bits()
    }
}

impl Cell {
    /// The raw byte of the flags.
    pub closed spec fn spec_bits(&self) -> u8 {
        self.bits
    }

    /// The cell with no flag set.
    pub fn empty() -> (r: Cell)
        ensures
            r@ == 0,
    {
        Cell { bits: 0 }
    }

    /// The cell whose flags are `bits`, or `None` if `bits` holds a bit that names no flag.
    pub fn from_bits(bits: u8) -> (r: Option<Cell>)
        ensures
            r is Some <==> bits & !ALL_FLAGS == 0,
            r matches Some(c) ==> c@ == bits,
    {
        if bits & !ALL_FLAGS == 0 {
            Some(Cell { bits })
        } else {
            None
        }
    }

    /// The cell whose flags are those of `bits` that name a flag.
    pub fn from_bits_truncate(bits: u8) -> (r: Cell)
        ensures
            r@ == bits & ALL_FLAGS,
    {
        Cell { bits: bits & ALL_FLAGS }
    }

    /// The raw byte of the flags.
    pub fn bits(&self) -> (r: u8)
        ensures
            r == self@,
    {
        self.bits
    }

    /// Adds every flag of `other`.
    pub fn insert(&mut self, other: Cell)
        ensures
            final(self)@ == old(self)@ | other@,
    {
        self.bits = self.bits | other.bits;
    }

    /// Takes away every flag of `other`.
    pub fn remove(&mut self, other: Cell)
        ensures
            final(self)@ == old(self)@ & !other@,
    {
        self.bits = self.bits & !other.bits;
    }

    /// Flips every flag of `other`.
    pub fn toggle(&mut self, other: Cell)
        ensures
            final(self)@ == old(self)@ ^ other@,
    {
        self.bits = self.bits ^ other.bits;
    }

    /// Adds the flags of `other` when `value` holds, takes them away otherwise.
    pub fn set(&mut self, other: Cell, value: bool)
        ensures
            final(self)@ == (if value {
                old(self)@ | other@
            } else {
                old(self)@ & !other@
            }),
    {
        if value {
            self.insert(other);
        } else {
            self.remove(other);
        }
    }

    /// True when every flag of `other` is set.
    pub fn contains(&self, other: Cell) -> (r: bool)
        ensures
            r == (self@ & other@ == other@),
    {
        self.bits & other.bits == other.bits
    }

    /// True when some flag of `other` is set.
    pub fn intersects(&self, other: Cell) -> (r: bool)
        ensures
            r == has_any(self@, other@),
    {
        self.bits & other.bits != 0
    }

    /// The flags set in either cell.
    pub fn union(self, other: Cell) -> (r: Cell)
        ensures
            r@ == self@ | other@,
    {
        Cell { bits: self.bits | other.bits }
    }

    /// The flags set in both cells.
    pub fn intersection(self, other: Cell) -> (r: Cell)
        ensures
            r@ == self@ & other@,
    {
        Cell { bits: self.bits & other.bits }
    }

    /// The flags set in exactly one of the two cells.
    pub fn symmetric_difference(self, other: Cell) -> (r: Cell)
        ensures
            r@ == self@ ^ other@,
    {
        Cell { bits: self.bits ^ other.bits }
    }
}

/// The named flags and masks, as a host sees them.
#[derive(Clone, Copy, PartialEq, Eq, Structural, Debug)]
pub enum CellBits {
    Wire,
    Protected,
    Goal,
    Queued,
    Right,
    Down,
    Left,
    Up,
    Design,
    Signal,
    Material,
    Horizontal,
    Vertical,
}

impl CellBits {
    /// The byte that each name stands for.
    pub open spec fn value(self) -> u8 {
        match self {
            CellBits::Wire => WIRE,
            CellBits::Protected => PROTECTED,
            CellBits::Goal => GOAL,
            CellBits::Queued => QUEUED,
            CellBits::Right => RIGHT,
            CellBits::Down => DOWN,
            CellBits::Left => LEFT,
            CellBits::Up => UP,
            CellBits::Design => DESIGN,
            CellBits::Signal => SIGNAL,
            CellBits::Material => MATERIAL,
            CellBits::Horizontal => HORIZONTAL,
            CellBits::Vertical => VERTICAL,
        }
    }

    /// The byte of this flag or mask.
    pub fn bits(self) -> (r: u8)
        ensures
            r == self.value(),
    {
        match self {
            CellBits::Wire => WIRE,
            CellBits::Protected => PROTECTED,
            CellBits::Goal => GOAL,
            CellBits::Queued => QUEUED,
            CellBits::Right => RIGHT,
            CellBits::Down => DOWN,
            CellBits::Left => LEFT,
            CellBits::Up => UP,
            CellBits::Design => DESIGN,
            CellBits::Signal => SIGNAL,
            CellBits::Material => MATERIAL,
            CellBits::Horizontal => HORIZONTAL,
            CellBits::Vertical => VERTICAL,
        }
    }

    /// The cell that holds exactly this flag or mask.
    pub fn cell(self) -> (r: Cell)
        ensures
            r@ == self.value(),
    {
        let b = self.bits();
        assert(b & ALL_FLAGS == b) by (bit_vector);
        Cell::from_bits_truncate(b)
    }
}

} // verus!
