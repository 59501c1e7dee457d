//! Draw depths as exact fractions.

use vstd::prelude::*;

verus! {

/// The depth given to the item drawn first.
pub const Z_BASE: u32 = 0;

/// The width of the range of depths: every depth lies in
/// `Z_BASE .. Z_BASE + Z_SPAN`.
pub const Z_SPAN: u32 = 5;

/// The draw depth of the item at place `index` among `n_items` sorted items.
/// It stands for the number `Z_BASE + index / n_items * Z_SPAN`; a larger
/// depth is drawn later, in front.
#[derive(Clone, Copy, Debug, PartialEq, Eq, Structural)]
pub struct Depth {
    pub index: usize,
    pub n_items: usize,
}

impl Depth {
    /// A place among the items: only such a depth lies in the range.
    pub open spec fn is_valid(self) -> bool {
        self.index < self.n_items
    }

    /// The depth multiplied by `n_items`, a whole number.
    pub open spec fn spec_scaled(self) -> int {
        Z_BASE * self.n_items + self.index * Z_SPAN
    }

    /// Whether `self` is the smaller depth.
    pub open spec fn spec_lt(self, other: Depth) -> bool {
        self.spec_scaled() * other.n_items < other.spec_scaled() * self.n_items
    }

    pub fn new(index: usize, n_items: usize) -> (depth: Self)
        ensures
            depth == (Depth { index, n_items }),
    {
        Self { index, n_items }
    }

    /// Whether `self` is drawn behind `other`.
    pub fn lt(&self, other: &Depth) -> (below: bool)
        ensures
            below == self.spec_lt(*other),
    {
        let a: u128 = self.index as u128;
        let b: u128 = other.index as u128;
        let m: u128 = self.n_items as u128;
        let n: u128 = other.n_items as u128;
        assert(a * n <= 0xffff_ffff_ffff_ffff * 0xffff_ffff_ffff_ffff && b * m
            <= 0xffff_ffff_ffff_ffff * 0xffff_ffff_ffff_ffff) by (nonlinear_arith)
            requires
                a <= 0xffff_ffff_ffff_ffff,
                b <= 0xffff_ffff_ffff_ffff,
                m <= 0xffff_ffff_ffff_ffff,
                n <= 0xffff_ffff_ffff_ffff,
        ;
        assert((a * n < b * m) <==> (0 * m + a * 5) * n < (0 * n + b * 5) * m)
            by (nonlinear_arith);
        a * n < b * m
    }

    /// Among the depths of one sort, the later place has the larger depth.
    pub proof fn lemma_lt_is_index_order(self, other: Depth)
        requires
            self.n_items == other.n_items,
            self.n_items > 0,
        ensures
            self.spec_lt(other) <==> self.index < other.index,
    {
        let a = self.index as int;
        let b = other.index as int;
        let n = self.n_items as int;
        assert(((0 * n + a * 5) * n < (0 * n + b * 5) * n) <==> a < b) by (nonlinear_arith)
            requires
                n > 0,
        ;
    }

    /// A valid depth lies in the range: at `Z_BASE` or above, and below
    /// `Z_BASE + Z_SPAN`.
    pub proof fn lemma_valid_depth_in_range(self)
        requires
            self.is_valid(),
        ensures
            Z_BASE * self.n_items <= self.spec_scaled() < (Z_BASE + Z_SPAN) * self.n_items,
    {
        let a = self.index as int;
        let n = self.n_items as int;
        assert(0 * n <= 0 * n + a * 5 < (0 + 5) * n) by (nonlinear_arith)
            requires
                0 <= a < n,
        ;
    }
}

impl Default for Depth {
    /// The depth of the item drawn first.
    fn default() -> (depth: Self)
        ensures
            depth == (Depth { index: 0, n_items: 1 }),
    {
        Self { index: 0, n_items: 1 }
    }
}

} // verus!
