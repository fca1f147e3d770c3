use vstd::prelude::*;

verus! {

/// The subset of the five child slots of a branch that a shape touches.
///
/// The slots are the straddler bucket ("this"), which shares the cell of the
/// branch, and the four quadrants of that cell.
#[derive(Debug, Copy, Clone, PartialEq, Eq, Structural)]
pub struct Quadrants {
    /// Bit field encoding the slots.
    /// - 1: "this" node (the straddler bucket)
    /// - 2: top left
    /// - 4: top right
    /// - 8: bottom left
    /// - 16: bottom right
    pub code: u8,
}

/// The number `b` stands for as a bit: one for `true`, zero for `false`.
pub open spec fn bit(b: bool) -> int {
    if b { 1 } else { 0 }
}

impl Quadrants {
    /// Whether the bit with the given offset is set: offset 0 stands for
    /// "this", offsets 1 to 4 for the quadrants in the order top left, top
    /// right, bottom left, bottom right. The bits above stand for no slot.
    pub open spec fn has(&self, slot: int) -> bool {
        if slot == 0 {
            self.code & 1 == 1
        } else if slot == 1 {
            self.code & 2 == 2
        } else if slot == 2 {
            self.code & 4 == 4
        } else if slot == 3 {
            self.code & 8 == 8
        } else if slot == 4 {
            self.code & 16 == 16
        } else if slot == 5 {
            self.code & 32 == 32
        } else if slot == 6 {
            self.code & 64 == 64
        } else if slot == 7 {
            self.code & 128 == 128
        } else {
            false
        }
    }

    /// Only the five slot bits can be set.
    pub open spec fn is_valid(&self) -> bool {
        self.code < 32
    }

    /// The set holds exactly the slots given by the five flags.
    pub open spec fn is_flags(&self, this: bool, tl: bool, tr: bool, bl: bool, br: bool) -> bool {
        &&& self.is_valid()
        &&& self.has(0) == this
        &&& self.has(1) == tl
        &&& self.has(2) == tr
        &&& self.has(3) == bl
        &&& self.has(4) == br
    }

    fn from_flags(this: bool, tl: bool, tr: bool, bl: bool, br: bool) -> (q: Self)
        ensures
            q.is_flags(this, tl, tr, bl, br),
    {
        let p0: u8 = if this { 1 } else { 0 };
        let p1: u8 = if tl { 2 } else { 0 };
        let p2: u8 = if tr { 4 } else { 0 };
        let p3: u8 = if bl { 8 } else { 0 };
        let p4: u8 = if br { 16 } else { 0 };
        let code: u8 = p0 | p1 | p2 | p3 | p4;
        assert({
            &&& code < 32
            &&& (code & 1 == 1) == (p0 == 1)
            &&& (code & 2 == 2) == (p1 == 2)
            &&& (code & 4 == 4) == (p2 == 4)
            &&& (code & 8 == 8) == (p3 == 8)
            &&& (code & 16 == 16) == (p4 == 16)
        }) by (bit_vector)
            requires
                p0 == 0 || p0 == 1,
                p1 == 0 || p1 == 2,
                p2 == 0 || p2 == 4,
                p3 == 0 || p3 == 8,
                p4 == 0 || p4 == 16,
                code == p0 | p1 | p2 | p3 | p4,
        ;
        Quadrants { code }
    }

    /// Classifies a rectangle by the four half-plane tests against the center
    /// of a cell.
    ///
    /// A quadrant is touched when both of its half-planes are. The straddler
    /// slot is set iff the rectangle reaches into both horizontal halves or
    /// into both vertical halves.
    pub fn from_tests(
        explore_left: bool,
        explore_top: bool,
        explore_right: bool,
        explore_bottom: bool,
    ) -> (q: Self)
        ensures
            q.is_flags(
                (explore_left && explore_right) || (explore_top && explore_bottom),
                explore_top && explore_left,
                explore_top && explore_right,
                explore_bottom && explore_left,
                explore_bottom && explore_right,
            ),
    {
        let covers_many = (explore_left && explore_right) || (explore_top && explore_bottom);
        Self::from_flags(
            covers_many,
            explore_top && explore_left,
            explore_top && explore_right,
            explore_bottom && explore_left,
            explore_bottom && explore_right,
        )
    }

    /// Builds the set from the outcome of one intersection test per quadrant.
    ///
    /// The straddler slot is set iff at least two distinct quadrants tested
    /// true.
    pub fn from_intersections(
        top_left: bool,
        top_right: bool,
        bottom_left: bool,
        bottom_right: bool,
    ) -> (q: Self)
        ensures
            q.is_flags(
                bit(top_left) + bit(top_right) + bit(bottom_left) + bit(bottom_right) >= 2,
                top_left,
                top_right,
                bottom_left,
                bottom_right,
            ),
    {
        let covers_many = (top_left && top_right) || (top_left && bottom_left) || (top_left
            && bottom_right) || (top_right && bottom_left) || (top_right && bottom_right)
            || (bottom_left && bottom_right);
        Self::from_flags(covers_many, top_left, top_right, bottom_left, bottom_right)
    }

    /// The set that holds the straddler slot only.
    pub fn self_only() -> (q: Self)
        ensures
            q.is_flags(true, false, false, false, false),
    {
        Self::from_flags(true, false, false, false, false)
    }

    /// The set of all five slots.
    pub fn all() -> (q: Self)
        ensures
            q.is_flags(true, true, true, true, true),
    {
        Self::from_flags(true, true, true, true, true)
    }

    /// Whether the straddler slot is in the set.
    pub fn this(&self) -> (b: bool)
        ensures
            b == self.has(0),
    {
        self.code & 1 == 1
    }

    /// Whether the top-left quadrant is in the set.
    pub fn top_left(&self) -> (b: bool)
        ensures
            b == self.has(1),
    {
        self.code & 2 == 2
    }

    /// Whether the top-right quadrant is in the set.
    pub fn top_right(&self) -> (b: bool)
        ensures
            b == self.has(2),
    {
        self.code & 4 == 4
    }

    /// Whether the bottom-left quadrant is in the set.
    pub fn bottom_left(&self) -> (b: bool)
        ensures
            b == self.has(3),
    {
        self.code & 8 == 8
    }

    /// Whether the bottom-right quadrant is in the set.
    pub fn bottom_right(&self) -> (b: bool)
        ensures
            b == self.has(4),
    {
        self.code & 16 == 16
    }

    /// Whether the bit with offset `index` is set.
    pub fn at(&self, index: u32) -> (b: bool)
        requires
            index < 8,
        ensures
            b == self.has(index as int),
    {
        let value: u8 = 1u8 << index;
        assert({
            &&& index == 0 ==> value == 1
            &&& index == 1 ==> value == 2
            &&& index == 2 ==> value == 4
            &&& index == 3 ==> value == 8
            &&& index == 4 ==> value == 16
            &&& index == 5 ==> value == 32
            &&& index == 6 ==> value == 64
            &&& index == 7 ==> value == 128
        }) by (bit_vector)
            requires
                index < 8,
                value == 1u8 << index,
        ;
        self.code & value == value
    }

    /// The offset of the one slot that a mutation descends into.
    ///
    /// A set with the straddler slot, and the empty set, select offset 0. A
    /// set of one quadrant selects that quadrant's offset.
    pub open spec fn mutation_index_spec(&self) -> int {
        if self.has(0) {
            0
        } else {
            bit(self.has(1)) + 2 * bit(self.has(2)) + 3 * bit(self.has(3)) + 4 * bit(self.has(4))
        }
    }

    /// Calculates the index into a five-element array \[this, TL, TR, BL, BR\].
    pub fn mutation_index(&self) -> (index: u32)
        ensures
            index == self.mutation_index_spec(),
            index <= 10,
    {
        let bits: u32 = self.code as u32;
        let offset_this: u32 = bits & 1;
        let offset_tl: u32 = (bits >> 1) & 1;
        let offset_tr: u32 = (bits >> 2) & 1;
        let offset_bl: u32 = (bits >> 3) & 1;
        let offset_br: u32 = (bits >> 4) & 1;
        let code = self.code;
        assert({
            &&& offset_this == (if code & 1 == 1 { 1u32 } else { 0u32 })
            &&& offset_tl == (if code & 2 == 2 { 1u32 } else { 0u32 })
            &&& offset_tr == (if code & 4 == 4 { 1u32 } else { 0u32 })
            &&& offset_bl == (if code & 8 == 8 { 1u32 } else { 0u32 })
            &&& offset_br == (if code & 16 == 16 { 1u32 } else { 0u32 })
        }) by (bit_vector)
            requires
                bits == code as u32,
                offset_this == bits & 1,
                offset_tl == (bits >> 1) & 1,
                offset_tr == (bits >> 2) & 1,
                offset_bl == (bits >> 3) & 1,
                offset_br == (bits >> 4) & 1,
        ;
        (offset_tl + (offset_tr * 2) + (offset_bl * 3) + (offset_br * 4)) * (1 - offset_this)
    }
}

} // verus!
