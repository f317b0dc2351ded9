use vstd::prelude::*;

verus! {

/// Largest coordinate magnitude the mesh accepts.  Together with the bound on
/// arena sizes it keeps every sum and product of the traversal arithmetic
/// inside `i64`.
pub const COORD_LIMIT: i64 = 0x10_0000;

/// Division that rounds toward zero, the behaviour of machine division, for a
/// positive divisor.
pub open spec fn div_trunc(a: int, b: int) -> int {
    if a >= 0 {
        a / b
    } else {
        -((-a) / b)
    }
}

/// A two-dimensional position with integer coordinates.
#[derive(Clone, Copy, PartialEq, Eq, Structural, Debug)]
pub struct Pos2 {
    pub x: i64,
    pub y: i64,
}

impl Pos2 {
    /// Both coordinates lie within `COORD_LIMIT`.
    pub open spec fn bounded(self) -> bool {
        &&& -COORD_LIMIT <= self.x <= COORD_LIMIT
        &&& -COORD_LIMIT <= self.y <= COORD_LIMIT
    }

    /// Component-wise sum.
    pub fn plus(self, rhs: Pos2) -> (r: Pos2)
        requires
            self.bounded(),
            rhs.bounded(),
        ensures
            r.x == self.x + rhs.x,
            r.y == self.y + rhs.y,
    {
        Pos2 { x: self.x + rhs.x, y: self.y + rhs.y }
    }

    /// Component-wise difference.
    pub fn minus(self, rhs: Pos2) -> (r: Pos2)
        requires
            self.bounded(),
            rhs.bounded(),
        ensures
            r.x == self.x - rhs.x,
            r.y == self.y - rhs.y,
    {
        Pos2 { x: self.x - rhs.x, y: self.y - rhs.y }
    }

    /// Dot product.
    pub fn dot(self, rhs: Pos2) -> (r: i64)
        requires
            self.bounded(),
            rhs.bounded(),
        ensures
            r == self.x * rhs.x + self.y * rhs.y,
    {
        proof {
            lemma_product_bounded(self.x as int, rhs.x as int);
            lemma_product_bounded(self.y as int, rhs.y as int);
        }
        self.x * rhs.x + self.y * rhs.y
    }

    /// Squared Euclidean norm.
    pub fn sq_norm(self) -> (r: i64)
        requires
            self.bounded(),
        ensures
            r == self.x * self.x + self.y * self.y,
    {
        self.dot(self)
    }

    /// The midpoint of two positions, each coordinate rounded toward zero.
    /// When the positions coincide the result is that position exactly.
    pub fn midpoint(self, rhs: Pos2) -> (r: Pos2)
        requires
            self.bounded(),
            rhs.bounded(),
        ensures
            r.x == div_trunc(self.x + rhs.x, 2),
            r.y == div_trunc(self.y + rhs.y, 2),
            r.bounded(),
            self == rhs ==> r == self,
    {
        let r = Pos2 { x: div_toward_zero(self.x + rhs.x, 2), y: div_toward_zero(self.y + rhs.y, 2) };
        proof {
            lemma_div_trunc_bounds(self.x + rhs.x, 2);
            lemma_div_trunc_bounds(self.y + rhs.y, 2);
            if self == rhs {
                assert(r.x == self.x) by {
                    lemma_half_of_double(self.x as int);
                }
                assert(r.y == self.y) by {
                    lemma_half_of_double(self.y as int);
                }
            }
        }
        r
    }
}

/// The product of two bounded coordinates stays far inside `i64`.
pub proof fn lemma_product_bounded(a: int, b: int)
    requires
        -COORD_LIMIT <= a <= COORD_LIMIT,
        -COORD_LIMIT <= b <= COORD_LIMIT,
    ensures
        -0x100_0000_0000 <= a * b <= 0x100_0000_0000,
{
    assert(-0x100_0000_0000 <= a * b <= 0x100_0000_0000) by (nonlinear_arith)
        requires
            -0x10_0000 <= a <= 0x10_0000,
            -0x10_0000 <= b <= 0x10_0000,
    ;
}

/// Division rounding toward zero, the behaviour of machine division, for a
/// positive divisor.
pub fn div_toward_zero(a: i64, b: i64) -> (r: i64)
    requires
        -0x4000_0000_0000_0000 <= a <= 0x4000_0000_0000_0000,
        1 <= b,
    ensures
        r == div_trunc(a as int, b as int),
{
    proof {
        lemma_div_trunc_bounds(a as int, b as int);
    }
    if a >= 0 {
        ((a as u64) / (b as u64)) as i64
    } else {
        let m: u64 = (-a) as u64;
        -((m / (b as u64)) as i64)
    }
}

/// Truncating division shrinks magnitude: the quotient stays within the
/// dividend's bounds.
pub proof fn lemma_div_trunc_bounds(a: int, b: int)
    requires
        b >= 1,
    ensures
        a >= 0 ==> 0 <= div_trunc(a, b) <= a,
        a < 0 ==> a <= div_trunc(a, b) <= 0,
{
    broadcast use vstd::arithmetic::div_mod::group_div_basics;

    if a >= 0 {
        assert(0 <= a / b <= a);
    } else {
        assert(0 <= (-a) / b <= -a);
    }
}

/// The truncated mean of `d` values within `±l` stays within `±l`.
pub proof fn lemma_div_trunc_mean_bounded(s: int, d: int, l: int)
    requires
        1 <= d,
        0 <= l,
        -(d * l) <= s <= d * l,
    ensures
        -l <= div_trunc(s, d) <= l,
{
    vstd::arithmetic::div_mod::lemma_div_multiples_vanish(l, d);
    if s >= 0 {
        vstd::arithmetic::div_mod::lemma_div_is_ordered(s, d * l, d);
        vstd::arithmetic::div_mod::lemma_div_pos_is_pos(s, d);
    } else {
        vstd::arithmetic::div_mod::lemma_div_is_ordered(-s, d * l, d);
        vstd::arithmetic::div_mod::lemma_div_pos_is_pos(-s, d);
    }
}

/// Halving an even doubling returns the original value.
pub proof fn lemma_half_of_double(a: int)
    ensures
        div_trunc(2 * a, 2) == a,
{
    if 2 * a >= 0 {
        assert((2 * a) / 2 == a) by (nonlinear_arith);
    } else {
        assert((-(2 * a)) / 2 == -a) by (nonlinear_arith);
    }
}

} // verus!
