//! The cost model: exact lengths of moves.
//!
//! A move costs the Euclidean distance between its two points. The steps
//! of a walk on the grid have length 1 or `sqrt(2)`; they are counted, and
//! costs made of them alone are compared exactly. A move of more than one
//! cell is kept as it is, by its extent along the two axes, so that the
//! cost of any chain of moves is the exact sum of its distances.

use vstd::prelude::*;
use crate::point::{axis_distance, span, Point};
use crate::surd::{is_root_two, lemma_plus_is_real, Surd};

verus! {

/// A length `straight + diagonal * sqrt(2)`: that of `straight` steps along
/// rows or columns and `diagonal` diagonal steps.
#[derive(Clone, Copy, Debug, PartialEq, Eq, Structural)]
pub struct Paces {
    pub straight: u64,
    pub diagonal: u64,
}

impl View for Paces {
    type V = Surd;

    open spec fn view(&self) -> Surd {
        Surd { units: self.straight as int, roots: self.diagonal as int }
    }
}

/// The Euclidean distance between two points that are at most one step
/// apart.
pub open spec fn step_length(from: Point, to: Point) -> Surd {
    if from.x != to.x && from.y != to.y {
        Surd::root_two()
    } else if from != to {
        Surd::one()
    } else {
        Surd::zero()
    }
}

/// The squared Euclidean distance between two points.
pub open spec fn squared_distance(from: Point, to: Point) -> int {
    span(from.x, to.x) * span(from.x, to.x) + span(from.y, to.y) * span(from.y, to.y)
}

/// The length of the shortest walk between two points on a grid without
/// obstacles: diagonal moves until a row or a column is shared, then
/// straight moves.
pub open spec fn open_distance(from: Point, to: Point) -> Surd {
    let dx = span(from.x, to.x);
    let dy = span(from.y, to.y);
    if dx >= dy {
        Surd { units: dx - dy, roots: dy }
    } else {
        Surd { units: dy - dx, roots: dx }
    }
}

/// A step length is the Euclidean distance: it is not negative and its
/// square is the squared distance of the coordinates.
pub proof fn lemma_step_length_is_euclidean(from: Point, to: Point)
    requires
        from.within_one_step(to),
    ensures
        step_length(from, to).is_nonneg(),
        step_length(from, to).times(step_length(from, to)) == (Surd {
            units: squared_distance(from, to),
            roots: 0,
        }),
{
    reveal(Surd::is_nonneg);
    let dx = span(from.x, to.x);
    let dy = span(from.y, to.y);
    assert(dx * dx == dx) by (nonlinear_arith)
        requires
            0 <= dx <= 1,
    ;
    assert(dy * dy == dy) by (nonlinear_arith)
        requires
            0 <= dy <= 1,
    ;
}

/// A step length is the Euclidean distance as a real number: with the
/// square root of 2 in the place of `sqrt(2)`, it is not negative and its
/// square is the squared distance of the coordinates.
pub proof fn lemma_step_length_is_real_distance(from: Point, to: Point, r: real)
    requires
        from.within_one_step(to),
        is_root_two(r),
    ensures
        step_length(from, to).value(r) >= 0 as real,
        step_length(from, to).value(r) * step_length(from, to).value(r) == squared_distance(
            from,
            to,
        ) as real,
{
    let dx = span(from.x, to.x);
    let dy = span(from.y, to.y);
    assert(dx * dx == dx) by (nonlinear_arith)
        requires
            0 <= dx <= 1,
    ;
    assert(dy * dy == dy) by (nonlinear_arith)
        requires
            0 <= dy <= 1,
    ;
    let length = step_length(from, to).value(r);
    if from.x != to.x && from.y != to.y {
        assert(length == 0 as real + (1 as real) * r);
        assert(length == r);
        assert(squared_distance(from, to) == 2);
    } else if from != to {
        assert(length == 1 as real + (0 as real) * r);
        assert(length == 1 as real);
        assert(length * length == 1 as real);
        assert(squared_distance(from, to) == 1);
    } else {
        assert(length == 0 as real + (0 as real) * r);
        assert(length == 0 as real);
        assert(length * length == 0 as real) by (nonlinear_arith)
            requires
                length == 0 as real,
        ;
        assert(squared_distance(from, to) == 0);
    }
}

proof fn lemma_small_square(a: int)
    requires
        -3 <= a <= 3,
    ensures
        a * a == if a == 0 {
            0int
        } else if a == 1 || a == -1 {
            1int
        } else if a == 2 || a == -2 {
            4int
        } else {
            9int
        },
{
    assert(a * a == if a == 0 {
        0int
    } else if a == 1 || a == -1 {
        1int
    } else if a == 2 || a == -2 {
        4int
    } else {
        9int
    }) by (nonlinear_arith)
        requires
            -3 <= a <= 3,
    ;
}

/// One step changes the distance over open ground to any point by at most
/// the length of the step.
pub proof fn lemma_open_distance_step(from: Point, to: Point, goal: Point)
    requires
        from.within_one_step(to),
    ensures
        open_distance(from, goal).le(step_length(from, to).plus(open_distance(to, goal))),
{
    reveal(Surd::is_nonneg);
    let d = step_length(from, to).plus(open_distance(to, goal)).minus(open_distance(from, goal));
    lemma_small_square(d.units);
    lemma_small_square(d.roots);
    assert(2 * d.roots * d.roots == 2 * (d.roots * d.roots)) by (nonlinear_arith);
}

fn square_at_least_double(a: u64, b: u64) -> (r: bool)
    ensures
        r == (a * a >= 2 * b * b),
{
    assert(a * a <= 0xffff_ffff_ffff_ffff * 0xffff_ffff_ffff_ffff) by (nonlinear_arith)
        requires
            0 <= a <= 0xffff_ffff_ffff_ffff,
    ;
    assert(b * b <= 0xffff_ffff_ffff_ffff * 0xffff_ffff_ffff_ffff) by (nonlinear_arith)
        requires
            0 <= b <= 0xffff_ffff_ffff_ffff,
    ;
    let a2: u128 = (a as u128) * (a as u128);
    let b2: u128 = (b as u128) * (b as u128);
    assert(2 * b * b == 2 * (b * b)) by (nonlinear_arith);
    a2 / 2 >= b2
}

fn square_at_most_double(a: u64, b: u64) -> (r: bool)
    ensures
        r == (a * a <= 2 * b * b),
{
    assert(a * a <= 0xffff_ffff_ffff_ffff * 0xffff_ffff_ffff_ffff) by (nonlinear_arith)
        requires
            0 <= a <= 0xffff_ffff_ffff_ffff,
    ;
    assert(b * b <= 0xffff_ffff_ffff_ffff * 0xffff_ffff_ffff_ffff) by (nonlinear_arith)
        requires
            0 <= b <= 0xffff_ffff_ffff_ffff,
    ;
    let a2: u128 = (a as u128) * (a as u128);
    let b2: u128 = (b as u128) * (b as u128);
    assert(2 * b * b == 2 * (b * b)) by (nonlinear_arith);
    a2 / 2 < b2 || (a2 / 2 == b2 && a2 % 2 == 0)
}

impl Paces {
    /// The length of a walk without moves.
    pub fn zero() -> (c: Paces)
        ensures
            c@ == Surd::zero(),
    {
        Paces { straight: 0, diagonal: 0 }
    }

    /// The sum of two lengths.
    pub fn plus(&self, other: &Paces) -> (c: Paces)
        requires
            self.straight + other.straight <= u64::MAX,
            self.diagonal + other.diagonal <= u64::MAX,
        ensures
            c@ == self@.plus(other@),
    {
        Paces {
            straight: self.straight + other.straight,
            diagonal: self.diagonal + other.diagonal,
        }
    }

    /// Whether `self` is at most `other`.
    pub fn le(&self, other: &Paces) -> (b: bool)
        ensures
            b == self@.le(other@),
    {
        proof {
            reveal(Surd::is_nonneg);
        }
        if other.straight >= self.straight {
            if other.diagonal >= self.diagonal {
                true
            } else {
                let gain: u64 = other.straight - self.straight;
                let loss: u64 = self.diagonal - other.diagonal;
                proof {
                    let d = other@.minus(self@);
                    assert(d.units * d.units == gain * gain) by (nonlinear_arith)
                        requires
                            d.units == gain,
                    ;
                    assert(2 * d.roots * d.roots == 2 * loss * loss) by (nonlinear_arith)
                        requires
                            d.roots == -loss,
                    ;
                    assert(2 * loss * loss > 0) by (nonlinear_arith)
                        requires
                            loss > 0,
                    ;
                    assert(gain == 0 ==> gain * gain == 0) by (nonlinear_arith);
                }
                square_at_least_double(gain, loss)
            }
        } else {
            if other.diagonal > self.diagonal {
                let loss: u64 = self.straight - other.straight;
                let gain: u64 = other.diagonal - self.diagonal;
                proof {
                    let d = other@.minus(self@);
                    assert(d.units * d.units == loss * loss) by (nonlinear_arith)
                        requires
                            d.units == -loss,
                    ;
                    assert(2 * d.roots * d.roots == 2 * gain * gain) by (nonlinear_arith)
                        requires
                            d.roots == gain,
                    ;
                }
                square_at_most_double(loss, gain)
            } else {
                false
            }
        }
    }

    /// Whether `self` is less than `other`.
    pub fn lt(&self, other: &Paces) -> (b: bool)
        ensures
            b == self@.lt(other@),
    {
        !other.le(self)
    }
}

/// A move of more than one cell, by its extent along the two axes. Its
/// length is the square root of `dx * dx + dy * dy`.
#[derive(Clone, Copy, Debug, PartialEq, Eq, Structural)]
pub struct Stride {
    pub dx: u32,
    pub dy: u32,
}

impl Stride {
    /// The square of the stride's length.
    pub open spec fn squared(self) -> int {
        self.dx * self.dx + self.dy * self.dy
    }
}

/// The move from one point to another, as a stride.
pub open spec fn stride_between(from: Point, to: Point) -> Stride {
    Stride { dx: span(from.x, to.x) as u32, dy: span(from.y, to.y) as u32 }
}

/// A cost as the contracts speak of it: the exact length of the single
/// steps, and the longer moves one by one.
pub struct Length {
    pub paces: Surd,
    pub strides: Seq<Stride>,
}

/// `root` gives the square root of every natural number.
pub open spec fn is_root(root: spec_fn(int) -> real) -> bool {
    forall|n: int| n >= 0 ==> (#[trigger] root(n)) >= 0 as real && root(n) * root(n) == n as real
}

/// The sum of the lengths of the strides.
pub open spec fn strides_value(strides: Seq<Stride>, root: spec_fn(int) -> real) -> real
    decreases strides.len(),
{
    if strides.len() == 0 {
        0 as real
    } else {
        strides_value(strides.drop_last(), root) + root(strides.last().squared())
    }
}

impl Length {
    pub open spec fn zero() -> Length {
        Length { paces: Surd::zero(), strides: Seq::empty() }
    }

    /// The move is a single step, or none, and the counters have room for
    /// it.
    pub open spec fn counts(self, from: Point, to: Point) -> bool {
        &&& from.within_one_step(to)
        &&& self.paces.units + step_length(from, to).units <= u64::MAX
        &&& self.paces.roots + step_length(from, to).roots <= u64::MAX
    }

    /// The cost with the move from `from` to `to` added: a single step is
    /// counted, any other move is kept as a stride.
    pub open spec fn after(self, from: Point, to: Point) -> Length {
        if self.counts(from, to) {
            Length { paces: self.paces.plus(step_length(from, to)), strides: self.strides }
        } else {
            Length { paces: self.paces, strides: self.strides.push(stride_between(from, to)) }
        }
    }

    /// The real number that the cost stands for, where `root` gives the
    /// square roots.
    pub open spec fn value(self, root: spec_fn(int) -> real) -> real {
        self.paces.value(root(2)) + strides_value(self.strides, root)
    }
}

/// Two real numbers that are not negative and have the same square are the
/// same.
proof fn lemma_same_square(a: real, b: real)
    requires
        a >= 0 as real,
        b >= 0 as real,
        a * a == b * b,
    ensures
        a == b,
{
    assert(a == b) by (nonlinear_arith)
        requires
            a >= 0 as real,
            b >= 0 as real,
            a * a == b * b,
    ;
}

/// The square of a natural number is the same among the integers and among
/// the real numbers.
proof fn lemma_square_is_real(k: int)
    requires
        k >= 0,
    ensures
        (k as real) * (k as real) == (k * k) as real,
    decreases k,
{
    let b = k as real;
    if k == 0 {
        assert(b * b == 0 as real) by (nonlinear_arith)
            requires
                b == 0 as real,
        ;
        assert(k * k == 0) by (nonlinear_arith)
            requires
                k == 0,
        ;
    } else {
        let j = k - 1;
        let c = j as real;
        lemma_square_is_real(j);
        assert(k * k == j * j + 2 * j + 1) by (nonlinear_arith)
            requires
                k == j + 1,
        ;
        assert(b == c + 1 as real);
        assert(b * b == c * c + c + c + 1 as real) by (nonlinear_arith)
            requires
                b == c + 1 as real,
        ;
    }
}

/// The square root of a square is the number itself: a stride of 3 by 4
/// is 5 long.
pub proof fn lemma_root_of_square(root: spec_fn(int) -> real, k: int)
    requires
        is_root(root),
        k >= 0,
    ensures
        root(k * k) == k as real,
{
    assert(k * k >= 0) by (nonlinear_arith)
        requires
            k >= 0,
    ;
    let b = k as real;
    lemma_square_is_real(k);
    lemma_same_square(root(k * k), b);
}

/// A move adds its Euclidean distance to the cost, whatever the move: the
/// real number that is not negative and whose square is the squared
/// distance of the coordinates. Elevations play no part in it.
pub proof fn lemma_after_adds_distance(
    cost: Length,
    from: Point,
    to: Point,
    root: spec_fn(int) -> real,
)
    requires
        is_root(root),
    ensures
        cost.after(from, to).value(root) == cost.value(root) + root(squared_distance(from, to)),
        root(squared_distance(from, to)) >= 0 as real,
        root(squared_distance(from, to)) * root(squared_distance(from, to)) == squared_distance(
            from,
            to,
        ) as real,
{
    let dx = span(from.x, to.x);
    let dy = span(from.y, to.y);
    assert(dx * dx >= 0 && dy * dy >= 0) by (nonlinear_arith);
    let distance = root(squared_distance(from, to));
    assert(distance >= 0 as real);
    assert(is_root_two(root(2)));
    if cost.counts(from, to) {
        let step = step_length(from, to);
        lemma_plus_is_real(cost.paces, step, root(2));
        lemma_step_length_is_real_distance(from, to, root(2));
        lemma_same_square(step.value(root(2)), distance);
    } else {
        let longer = cost.strides.push(stride_between(from, to));
        assert(longer.drop_last() =~= cost.strides);
        assert(longer.last().squared() == squared_distance(from, to));
    }
}

/// A move never lowers the cost.
pub proof fn lemma_after_not_less(
    cost: Length,
    from: Point,
    to: Point,
    root: spec_fn(int) -> real,
)
    requires
        is_root(root),
    ensures
        cost.after(from, to).value(root) >= cost.value(root),
{
    lemma_after_adds_distance(cost, from, to, root);
}

/// A move costs the same in both directions.
pub proof fn lemma_after_symmetric(cost: Length, from: Point, to: Point)
    ensures
        cost.after(from, to) == cost.after(to, from),
{
}

/// A move from a cell to itself adds nothing, where the counters are
/// within the range of the machine's integers.
pub proof fn lemma_after_same_cell(cost: Length, p: Point)
    requires
        cost.paces.units <= u64::MAX,
        cost.paces.roots <= u64::MAX,
    ensures
        cost.after(p, p) == cost,
{
}

/// The lengths of strides add up to a number that is not negative.
pub proof fn lemma_strides_not_negative(strides: Seq<Stride>, root: spec_fn(int) -> real)
    requires
        is_root(root),
    ensures
        strides_value(strides, root) >= 0 as real,
    decreases strides.len(),
{
    if strides.len() > 0 {
        lemma_strides_not_negative(strides.drop_last(), root);
        let last = strides.last();
        assert(last.dx * last.dx >= 0 && last.dy * last.dy >= 0) by (nonlinear_arith);
    }
}

/// No cost is negative.
pub proof fn lemma_cost_not_negative(cost: &Cost, root: spec_fn(int) -> real)
    requires
        is_root(root),
    ensures
        cost@.value(root) >= 0 as real,
{
    lemma_strides_not_negative(cost@.strides, root);
    let b = cost.paces.diagonal as real;
    let r = root(2);
    assert(b * r >= 0 as real) by (nonlinear_arith)
        requires
            b >= 0 as real,
            r >= 0 as real,
    ;
}

/// The cost of a way: the Euclidean lengths of its moves, added up. The
/// single steps, of length 1 or `sqrt(2)`, are counted in `paces`; any
/// other move is kept among the `strides`.
#[derive(Clone, Debug, PartialEq, Eq)]
pub struct Cost {
    pub paces: Paces,
    pub strides: Vec<Stride>,
}

impl View for Cost {
    type V = Length;

    open spec fn view(&self) -> Length {
        Length { paces: self.paces@, strides: self.strides@ }
    }
}

impl Cost {
    /// The cost of a way without moves.
    pub fn zero() -> (c: Cost)
        ensures
            c@ == Length::zero(),
    {
        let c = Cost { paces: Paces::zero(), strides: Vec::new() };
        assert(c.strides@ =~= Seq::<Stride>::empty());
        c
    }

    /// The same cost once more.
    pub fn copy(&self) -> (c: Cost)
        ensures
            c@ == self@,
    {
        let mut strides: Vec<Stride> = Vec::new();
        let mut i: usize = 0;
        while i < self.strides.len()
            invariant
                i <= self.strides@.len(),
                strides@ == self.strides@.subrange(0, i as int),
            decreases self.strides@.len() - i,
        {
            strides.push(self.strides[i]);
            assert(strides@ =~= self.strides@.subrange(0, i + 1));
            i += 1;
        }
        assert(strides@ =~= self.strides@);
        Cost { paces: self.paces, strides }
    }

    /// The cost with the move from `from` to `to` added.
    pub fn after(&self, from: Point, to: Point) -> (c: Cost)
        ensures
            c@ == self@.after(from, to),
    {
        let dx: u32 = axis_distance(from.x, to.x);
        let dy: u32 = axis_distance(from.y, to.y);
        let mut c = self.copy();
        let straight: u64 = if (dx == 1 && dy == 0) || (dx == 0 && dy == 1) {
            1
        } else {
            0
        };
        let diagonal: u64 = if dx == 1 && dy == 1 {
            1
        } else {
            0
        };
        if dx <= 1 && dy <= 1 && c.paces.straight <= u64::MAX - straight && c.paces.diagonal
            <= u64::MAX - diagonal {
            c.paces = Paces {
                straight: c.paces.straight + straight,
                diagonal: c.paces.diagonal + diagonal,
            };
        } else {
            c.strides.push(Stride { dx, dy });
        }
        c
    }

    /// Whether `self` is at most `other`, where both are made of single
    /// steps; where one of them holds a stride the two are not compared.
    pub fn le(&self, other: &Cost) -> (b: Option<bool>)
        ensures
            b is Some <==> self@.strides.len() == 0 && other@.strides.len() == 0,
            b is Some ==> b->0 == self@.paces.le(other@.paces),
    {
        if self.strides.len() == 0 && other.strides.len() == 0 {
            Some(self.paces.le(&other.paces))
        } else {
            None
        }
    }

    /// Whether `self` is less than `other`, where both are made of single
    /// steps; where one of them holds a stride the two are not compared.
    pub fn lt(&self, other: &Cost) -> (b: Option<bool>)
        ensures
            b is Some <==> self@.strides.len() == 0 && other@.strides.len() == 0,
            b is Some ==> b->0 == self@.paces.lt(other@.paces),
    {
        if self.strides.len() == 0 && other.strides.len() == 0 {
            Some(self.paces.lt(&other.paces))
        } else {
            None
        }
    }
}

/// The cost of one move: the Euclidean distance between the two points,
/// whatever the points. Elevations play no part in it, nor does the
/// direction of the move.
pub fn step_cost(from: Point, to: Point) -> (c: Cost)
    ensures
        c@ == Length::zero().after(from, to),
        c@ == Length::zero().after(to, from),
{
    Cost::zero().after(from, to)
}

/// The length of the shortest walk from `from` to `to` on a grid without
/// obstacles.
pub fn open_cost(from: Point, to: Point) -> (c: Paces)
    ensures
        c@ == open_distance(from, to),
        c.straight <= u32::MAX,
        c.diagonal <= u32::MAX,
{
    let dx: u32 = axis_distance(from.x, to.x);
    let dy: u32 = axis_distance(from.y, to.y);
    if dx >= dy {
        Paces { straight: (dx - dy) as u64, diagonal: dy as u64 }
    } else {
        Paces { straight: (dy - dx) as u64, diagonal: dx as u64 }
    }
}

} // verus!
