use vstd::prelude::*;

verus! {

/// A cost is a totally ordered monoid whose order is compatible with its
/// addition. Costs are combined left to right; addition need not commute.
pub trait Cost: Sized + Clone {
    /// The total order on costs.
    spec fn le(self, other: Self) -> bool;

    /// The monoid operation.
    spec fn plus(self, other: Self) -> Self;

    /// The cost of placing `length` characters starting at `column` when lines
    /// should not exceed `max_width`.
    spec fn text(column: nat, length: nat, max_width: nat) -> Self;

    /// The cost of one line break.
    spec fn newline() -> Self;

    /// The cost of nothing: the identity of the monoid.
    spec fn zero() -> Self;

    proof fn le_is_total(a: Self, b: Self)
        ensures
            a.le(b) || b.le(a),
    ;

    proof fn le_is_transitive(a: Self, b: Self, c: Self)
        requires
            a.le(b),
            b.le(c),
        ensures
            a.le(c),
    ;

    proof fn le_is_antisymmetric(a: Self, b: Self)
        requires
            a.le(b),
            b.le(a),
        ensures
            a == b,
    ;

    proof fn plus_is_associative(a: Self, b: Self, c: Self)
        ensures
            a.plus(b).plus(c) == a.plus(b.plus(c)),
    ;

    /// The order is compatible with addition: adding the same cost on
    /// either side keeps the order.
    proof fn plus_is_monotone(a: Self, b: Self, c: Self)
        requires
            a.le(b),
        ensures
            a.plus(c).le(b.plus(c)),
            c.plus(a).le(c.plus(b)),
    ;

    /// Text placed further right never costs less.
    proof fn text_is_monotone(column: nat, further: nat, length: nat, max_width: nat)
        requires
            column <= further,
        ensures
            Self::text(column, length, max_width).le(Self::text(further, length, max_width)),
    ;

    /// The cost of a text is the cost of its two halves placed one after the
    /// other.
    proof fn text_splits(column: nat, first: nat, second: nat, max_width: nat)
        ensures
            Self::text(column, first + second, max_width) == Self::text(
                column,
                first,
                max_width,
            ).plus(Self::text(column + first, second, max_width)),
    ;

    /// Empty text costs nothing, wherever it stands.
    proof fn text_of_nothing(column: nat, max_width: nat)
        ensures
            Self::text(column, 0, max_width) == Self::zero(),
    ;

    /// Adding nothing changes no cost.
    proof fn zero_is_identity(a: Self)
        ensures
            Self::zero().plus(a) == a,
            a.plus(Self::zero()) == a,
    ;

    /// A clone of a cost is that cost.
    proof fn clone_is_exact(a: Self, b: Self)
        requires
            cloned(a, b),
        ensures
            a == b,
    ;

    fn less_eq(&self, other: &Self) -> (r: bool)
        ensures
            r == self.le(*other),
    ;

    fn add(self, rhs: Self) -> (r: Self)
        ensures
            r == self.plus(rhs),
    ;

    fn for_text(column: usize, length: usize, max_width: usize) -> (r: Self)
        ensures
            r == Self::text(column as nat, length as nat, max_width as nat),
    ;

    fn newline_cost() -> (r: Self)
        ensures
            r == Self::newline(),
    ;

    fn zero_cost() -> (r: Self)
        ensures
            r == Self::zero(),
    ;
}

/// How far `column` lies past `max_width`.
pub open spec fn excess(column: nat, max_width: nat) -> nat {
    if column > max_width {
        (column - max_width) as nat
    } else {
        0
    }
}

/// The growth of the squared excess over a text of `length` characters that
/// starts at `column`.
pub open spec fn squared_overflow(column: nat, length: nat, max_width: nat) -> nat {
    let before = excess(column, max_width);
    let after = excess(column + length, max_width);
    (after * after - before * before) as nat
}

/// The weight of one unit of squared overflow, in line breaks.
pub const OVERFLOW_UNIT: u128 = 0x1_0000_0000_0000_0000;

/// The largest cost; sums that would exceed it stay here.
pub const COST_LIMIT: u128 = 0xffff_ffff_ffff_ffff_ffff_ffff_ffff_ffff;

/// The least of `value` and `COST_LIMIT`.
pub open spec fn capped(value: nat) -> u128 {
    if value >= COST_LIMIT {
        COST_LIMIT
    } else {
        value as u128
    }
}

/// A cost that minimises the sum of squared overflows over the page width
/// first, and the number of lines second. Both are kept in one number, the
/// squared overflow above the line count, so that the order is the order of
/// numbers and addition is the addition of numbers, held at `COST_LIMIT`.
#[derive(PartialEq, Eq, Structural, Debug)]
pub struct Example3_5(pub u128);

impl Clone for Example3_5 {
    fn clone(&self) -> (r: Self)
        ensures
            r == *self,
    {
        Example3_5(self.0)
    }
}

impl Copy for Example3_5 {

}

impl Example3_5 {
    /// The sum of squared overflows.
    pub open spec fn spec_overflow(self) -> nat {
        (self.0 / OVERFLOW_UNIT) as nat
    }

    /// The number of line breaks.
    pub open spec fn spec_height(self) -> nat {
        (self.0 % OVERFLOW_UNIT) as nat
    }

    /// The sum of squared overflows.
    pub fn overflow(&self) -> (r: u64)
        ensures
            r == self.spec_overflow(),
    {
        (self.0 / OVERFLOW_UNIT) as u64
    }

    /// The number of line breaks.
    pub fn height(&self) -> (r: u64)
        ensures
            r == self.spec_height(),
    {
        (self.0 % OVERFLOW_UNIT) as u64
    }

    /// The order of costs compares overflows first and heights second.
    pub proof fn order_is_lexicographic(a: Self, b: Self)
        ensures
            a.le(b) <==> (a.spec_overflow() < b.spec_overflow() || (a.spec_overflow()
                == b.spec_overflow() && a.spec_height() <= b.spec_height())),
    {
    }

    /// Below `COST_LIMIT`, addition adds overflows and heights, carrying a
    /// full height into the overflow.
    pub proof fn plus_adds_components(a: Self, b: Self)
        requires
            a.0 + b.0 < COST_LIMIT,
            a.spec_height() + b.spec_height() < OVERFLOW_UNIT,
        ensures
            a.plus(b).spec_overflow() == a.spec_overflow() + b.spec_overflow(),
            a.plus(b).spec_height() == a.spec_height() + b.spec_height(),
    {
    }
}

proof fn lemma_square_difference(x: nat, y: nat, x2: nat, y2: nat)
    requires
        x <= y,
        x2 <= y2,
        x <= x2,
        y <= y2,
        y - x <= y2 - x2,
    ensures
        y * y - x * x <= y2 * y2 - x2 * x2,
        0 <= y * y - x * x,
{
    assert(y * y - x * x == (y - x) * (y + x)) by (nonlinear_arith);
    assert(y2 * y2 - x2 * x2 == (y2 - x2) * (y2 + x2)) by (nonlinear_arith);
    assert((y - x) * (y + x) <= (y2 - x2) * (y2 + x2)) by (nonlinear_arith)
        requires
            0 <= y - x <= y2 - x2,
            0 <= y + x <= y2 + x2,
    ;
    assert(0 <= (y - x) * (y + x)) by (nonlinear_arith)
        requires
            0 <= y - x,
            0 <= y + x,
    ;
}

proof fn lemma_squared_overflow_monotone(column: nat, further: nat, length: nat, max_width: nat)
    requires
        column <= further,
    ensures
        squared_overflow(column, length, max_width) <= squared_overflow(
            further,
            length,
            max_width,
        ),
{
    lemma_square_difference(
        excess(column, max_width),
        excess(column + length, max_width),
        excess(further, max_width),
        excess(further + length, max_width),
    );
    lemma_square_difference(
        excess(further, max_width),
        excess(further + length, max_width),
        excess(further, max_width),
        excess(further + length, max_width),
    );
}

proof fn lemma_squared_overflow_splits(column: nat, first: nat, second: nat, max_width: nat)
    ensures
        squared_overflow(column, first + second, max_width) == squared_overflow(
            column,
            first,
            max_width,
        ) + squared_overflow(column + first, second, max_width),
{
    let a = excess(column, max_width);
    let b = excess(column + first, max_width);
    let c = excess(column + first + second, max_width);
    lemma_square_difference(a, b, a, b);
    lemma_square_difference(b, c, b, c);
    lemma_square_difference(a, c, a, c);
}

impl Cost for Example3_5 {
    open spec fn le(self, other: Self) -> bool {
        self.0 <= other.0
    }

    open spec fn plus(self, other: Self) -> Self {
        Example3_5(capped((self.0 + other.0) as nat))
    }

    open spec fn text(column: nat, length: nat, max_width: nat) -> Self {
        Example3_5(capped(squared_overflow(column, length, max_width) * OVERFLOW_UNIT as nat))
    }

    open spec fn newline() -> Self {
        Example3_5(1)
    }

    open spec fn zero() -> Self {
        Example3_5(0)
    }

    proof fn le_is_total(a: Self, b: Self) {
    }

    proof fn le_is_transitive(a: Self, b: Self, c: Self) {
    }

    proof fn le_is_antisymmetric(a: Self, b: Self) {
    }

    proof fn plus_is_associative(a: Self, b: Self, c: Self) {
    }

    proof fn plus_is_monotone(a: Self, b: Self, c: Self) {
    }

    proof fn text_is_monotone(column: nat, further: nat, length: nat, max_width: nat) {
        lemma_squared_overflow_monotone(column, further, length, max_width);
    }

    proof fn text_splits(column: nat, first: nat, second: nat, max_width: nat) {
        lemma_squared_overflow_splits(column, first, second, max_width);
    }

    proof fn text_of_nothing(column: nat, max_width: nat) {
    }

    proof fn zero_is_identity(a: Self) {
    }

    proof fn clone_is_exact(a: Self, b: Self) {
    }

    fn less_eq(&self, other: &Self) -> (r: bool) {
        self.0 <= other.0
    }

    fn add(self, rhs: Self) -> (r: Self) {
        if rhs.0 >= COST_LIMIT - self.0 {
            Example3_5(COST_LIMIT)
        } else {
            Example3_5(self.0 + rhs.0)
        }
    }

    fn for_text(column: usize, length: usize, max_width: usize) -> (r: Self) {
        let end: u128 = column as u128 + length as u128;
        let limit: u128 = max_width as u128;
        if end <= limit {
            Example3_5(0)
        } else {
            let start: u128 = column as u128;
            let before: u128 = if start > limit {
                start - limit
            } else {
                0
            };
            let grown: u128 = end - limit - before;
            proof {
                assert(before == excess(column as nat, max_width as nat));
                assert(before + grown == excess((column + length) as nat, max_width as nat));
                assert(squared_overflow(column as nat, length as nat, max_width as nat) == grown
                    * (2 * before + grown)) by (nonlinear_arith)
                    requires
                        squared_overflow(column as nat, length as nat, max_width as nat) == ((before
                            + grown) * (before + grown) - before * before) as nat,
                        0 <= before,
                        0 <= grown,
                ;
            }
            if grown == 0 {
                Example3_5(0)
            } else if grown >= 0x1_0000_0000 || before >= 0x8000_0000_0000_0000 {
                proof {
                    assert(grown * (2 * before + grown) >= 0x1_0000_0000_0000_0000)
                        by (nonlinear_arith)
                        requires
                            grown >= 1,
                            before >= 0,
                            grown >= 0x1_0000_0000 || before >= 0x8000_0000_0000_0000,
                    ;
                    assert(grown * (2 * before + grown) * OVERFLOW_UNIT >= COST_LIMIT)
                        by (nonlinear_arith)
                        requires
                            grown * (2 * before + grown) >= 0x1_0000_0000_0000_0000,
                            OVERFLOW_UNIT == 0x1_0000_0000_0000_0000,
                            COST_LIMIT == 0xffff_ffff_ffff_ffff_ffff_ffff_ffff_ffff,
                    ;
                }
                Example3_5(COST_LIMIT)
            } else {
                proof {
                    assert(grown * (2 * before + grown) < 0x1_0000_0000 * 0x1_0001_0000_0000_0000)
                        by (nonlinear_arith)
                        requires
                            0 < grown < 0x1_0000_0000,
                            0 <= before < 0x8000_0000_0000_0000,
                    ;
                }
                let squares: u128 = grown * (2 * before + grown);
                if squares >= OVERFLOW_UNIT {
                    proof {
                        assert(squares * OVERFLOW_UNIT >= COST_LIMIT) by (nonlinear_arith)
                            requires
                                squares >= 0x1_0000_0000_0000_0000,
                                OVERFLOW_UNIT == 0x1_0000_0000_0000_0000,
                                COST_LIMIT == 0xffff_ffff_ffff_ffff_ffff_ffff_ffff_ffff,
                        ;
                    }
                    Example3_5(COST_LIMIT)
                } else {
                    proof {
                        assert(squares * OVERFLOW_UNIT < COST_LIMIT) by (nonlinear_arith)
                            requires
                                0 <= squares < 0x1_0000_0000_0000_0000,
                                OVERFLOW_UNIT == 0x1_0000_0000_0000_0000,
                                COST_LIMIT == 0xffff_ffff_ffff_ffff_ffff_ffff_ffff_ffff,
                        ;
                    }
                    Example3_5(squares * OVERFLOW_UNIT)
                }
            }
        }
    }

    fn newline_cost() -> (r: Self) {
        Example3_5(1)
    }

    fn zero_cost() -> (r: Self) {
        Example3_5(0)
    }
}

} // verus!
