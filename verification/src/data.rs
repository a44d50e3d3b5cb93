//! Grid points, segments and the rounded Euclidean distance between
//! points, and the errors that loading them can meet.

use vstd::prelude::*;

verus! {

/// `std::io::Error`, declared so that [`Error`] can carry one. Nothing in
/// this library looks inside it.
#[verifier::external_type_specification]
#[verifier::external_body]
pub struct ExIoError(std::io::Error);

/// Why a piece of text is no number.
#[derive(Debug, Clone, Copy, PartialEq, Eq, Structural)]
pub enum NumberError {
    /// The text is empty.
    Empty,
    /// The text is not a decimal number.
    Invalid,
    /// The number is too large for a coordinate.
    OutOfRange,
}

/// What can go wrong while points and segments are loaded.
#[derive(Debug)]
pub enum Error {
    /// A record holds a field that is no number.
    Parse(NumberError),
    /// The storage could not be read.
    IO(std::io::Error),
}

impl NumberError {
    /// The words that tell the error.
    pub open spec fn spec_message(self) -> Seq<char> {
        match self {
            NumberError::Empty => "cannot read a number from an empty field"@,
            NumberError::Invalid => "the field is not a decimal number"@,
            NumberError::OutOfRange => "the number is too large for a coordinate"@,
        }
    }

    /// Tells the error in words.
    pub fn message(&self) -> (text: String)
        ensures
            text@ == self.spec_message(),
    {
        match self {
            NumberError::Empty => "cannot read a number from an empty field".to_owned(),
            NumberError::Invalid => "the field is not a decimal number".to_owned(),
            NumberError::OutOfRange => "the number is too large for a coordinate".to_owned(),
        }
    }
}

/// Tells an input or output error in words.
///
/// Formats the error with the `Display` of `std::io::Error`. Nothing is
/// claimed of the text.
#[verifier::external_body]
fn io_error_text(err: &std::io::Error) -> (text: String) {
    format!("{}", err)
}

impl Error {
    /// Tells the error in words.
    pub fn message(&self) -> (text: String)
        ensures
            self matches Error::Parse(kind) ==> text@ == kind.spec_message(),
    {
        match self {
            Error::Parse(kind) => kind.message(),
            Error::IO(err) => io_error_text(err),
        }
    }
}

impl From<NumberError> for Error {
    fn from(err: NumberError) -> (r: Error) {
        Error::Parse(err)
    }
}

impl vstd::std_specs::convert::FromSpecImpl<NumberError> for Error {
    open spec fn obeys_from_spec() -> bool {
        true
    }

    open spec fn from_spec(err: NumberError) -> Error {
        Error::Parse(err)
    }
}

impl From<std::io::Error> for Error {
    fn from(err: std::io::Error) -> (r: Error) {
        Error::IO(err)
    }
}

impl vstd::std_specs::convert::FromSpecImpl<std::io::Error> for Error {
    open spec fn obeys_from_spec() -> bool {
        true
    }

    open spec fn from_spec(err: std::io::Error) -> Error {
        Error::IO(err)
    }
}

/// `r` is the square root of `n` rounded down.
pub open spec fn is_floor_sqrt(n: nat, r: nat) -> bool {
    r * r <= n && n < (r + 1) * (r + 1)
}

/// The square root of `n` rounded down to a natural number.
pub open spec fn floor_sqrt(n: nat) -> nat {
    choose|r: nat| is_floor_sqrt(n, r)
}

/// Every natural number has a rounded-down square root.
pub proof fn lemma_floor_sqrt_exists(n: nat)
    ensures
        is_floor_sqrt(n, floor_sqrt(n)),
    decreases n,
{
    if n == 0 {
        assert(0nat * 0nat == 0 && (0nat + 1) * (0nat + 1) == 1) by (nonlinear_arith);
        assert(is_floor_sqrt(0, 0));
    } else {
        lemma_floor_sqrt_exists((n - 1) as nat);
        let r = floor_sqrt((n - 1) as nat);
        if (r + 1) * (r + 1) <= n {
            assert(n < (r + 2) * (r + 2)) by (nonlinear_arith)
                requires
                    n - 1 < (r + 1) * (r + 1),
            ;
            assert(is_floor_sqrt(n, r + 1));
        } else {
            assert(is_floor_sqrt(n, r));
        }
    }
}

/// The rounded-down square root is unique.
pub proof fn lemma_floor_sqrt_unique(n: nat, a: nat, b: nat)
    requires
        is_floor_sqrt(n, a),
        is_floor_sqrt(n, b),
    ensures
        a == b,
{
    if a < b {
        assert((a + 1) * (a + 1) <= b * b) by (nonlinear_arith)
            requires
                a + 1 <= b,
        ;
    } else if b < a {
        assert((b + 1) * (b + 1) <= a * a) by (nonlinear_arith)
            requires
                b + 1 <= a,
        ;
    }
}

/// Whatever satisfies the defining inequalities is the rounded-down root.
pub proof fn lemma_floor_sqrt_is(n: nat, r: nat)
    requires
        is_floor_sqrt(n, r),
    ensures
        floor_sqrt(n) == r,
{
    lemma_floor_sqrt_exists(n);
    lemma_floor_sqrt_unique(n, r, floor_sqrt(n));
}

/// Computes the square root of `n` rounded down, by bisection.
pub fn integer_sqrt(n: u128) -> (r: u64)
    ensures
        r == floor_sqrt(n as nat),
        is_floor_sqrt(n as nat, r as nat),
{
    let mut lo: u128 = 0;
    let mut hi: u128 = 0x1_0000_0000_0000_0000;
    assert(lo * lo <= n && n < hi * hi) by (nonlinear_arith)
        requires
            lo == 0,
            hi == 0x1_0000_0000_0000_0000,
            n <= u128::MAX,
    ;
    while hi - lo > 1
        invariant
            lo < hi <= 0x1_0000_0000_0000_0000,
            lo * lo <= n,
            n < hi * hi,
        decreases hi - lo,
    {
        let mid: u128 = lo + (hi - lo) / 2;
        assert(mid * mid < 0x1_0000_0000_0000_0000 * 0x1_0000_0000_0000_0000) by (nonlinear_arith)
            requires
                0 <= mid < 0x1_0000_0000_0000_0000,
        ;
        if mid * mid <= n {
            lo = mid;
        } else {
            hi = mid;
        }
    }
    proof {
        assert(hi == lo + 1);
        assert(is_floor_sqrt(n as nat, lo as nat));
        lemma_floor_sqrt_is(n as nat, lo as nat);
    }
    lo as u64
}

/// A point of the integer grid.
#[derive(Debug, Clone, Copy, PartialEq, Eq, Structural)]
pub struct Point {
    pub x: i32,
    pub y: i32,
}

impl Default for Point {
    /// The origin.
    fn default() -> (p: Point)
        ensures
            p == (Point { x: 0, y: 0 }),
    {
        Point { x: 0, y: 0 }
    }
}

impl Point {
    /// The squared Euclidean distance of two points.
    pub open spec fn spec_squared_distance(self, other: Point) -> nat {
        ((self.x - other.x) * (self.x - other.x) + (self.y - other.y) * (self.y - other.y)) as nat
    }

    /// The Euclidean distance of two points, rounded down to a whole unit.
    pub open spec fn spec_distance_to(self, other: Point) -> nat {
        floor_sqrt(self.spec_squared_distance(other))
    }

    /// The Euclidean distance to `other`, rounded down to a whole unit.
    pub fn distance_to(&self, other: &Point) -> (d: u64)
        ensures
            d == self.spec_distance_to(*other),
            is_floor_sqrt(self.spec_squared_distance(*other), d as nat),
    {
        let dx: i128 = self.x as i128 - other.x as i128;
        let dy: i128 = self.y as i128 - other.y as i128;
        assert(0 <= dx * dx <= 0x1_0000_0000_0000_0000) by (nonlinear_arith)
            requires
                -0x1_0000_0000 <= dx <= 0x1_0000_0000,
        ;
        assert(0 <= dy * dy <= 0x1_0000_0000_0000_0000) by (nonlinear_arith)
            requires
                -0x1_0000_0000 <= dy <= 0x1_0000_0000,
        ;
        let square: i128 = dx * dx + dy * dy;
        integer_sqrt(square as u128)
    }
}

/// A segment from one point to another.
#[derive(Debug, Clone, Copy, PartialEq, Eq, Structural)]
pub struct Path {
    pub start: Point,
    pub end: Point,
}

impl Default for Path {
    /// The segment from the origin to the origin.
    fn default() -> (s: Path)
        ensures
            s == (Path { start: Point { x: 0, y: 0 }, end: Point { x: 0, y: 0 } }),
    {
        Path { start: Point { x: 0, y: 0 }, end: Point { x: 0, y: 0 } }
    }
}

impl Path {
    /// The distance between the two ends of the segment.
    pub fn length(&self) -> (d: u64)
        ensures
            d == self.start.spec_distance_to(self.end),
    {
        self.start.distance_to(&self.end)
    }
}

/// The distance is symmetric, never negative, and zero from a point to itself.
pub proof fn lemma_distance_symmetric(a: Point, b: Point)
    ensures
        a.spec_distance_to(b) == b.spec_distance_to(a),
        a.spec_distance_to(b) >= 0,
        a.spec_distance_to(a) == 0,
{
    assert(a.spec_squared_distance(b) == b.spec_squared_distance(a)) by (nonlinear_arith)
        requires
            a.spec_squared_distance(b) == ((a.x - b.x) * (a.x - b.x) + (a.y - b.y) * (a.y - b.y)) as nat,
            b.spec_squared_distance(a) == ((b.x - a.x) * (b.x - a.x) + (b.y - a.y) * (b.y - a.y)) as nat,
    ;
    assert(a.spec_squared_distance(a) == 0) by (nonlinear_arith)
        requires
            a.spec_squared_distance(a) == ((a.x - a.x) * (a.x - a.x) + (a.y - a.y) * (a.y - a.y)) as nat,
    ;
    assert(0nat * 0nat == 0 && (0nat + 1) * (0nat + 1) == 1) by (nonlinear_arith);
    assert(is_floor_sqrt(0, 0));
    lemma_floor_sqrt_is(0, 0);
}

/// No distance reaches 2^33: coordinates differ by less than 2^32.
pub proof fn lemma_distance_bound(a: Point, b: Point)
    ensures
        a.spec_distance_to(b) < 0x2_0000_0000,
{
    let dx = a.x - b.x;
    let dy = a.y - b.y;
    let n = a.spec_squared_distance(b);
    let r = a.spec_distance_to(b);
    assert(0 <= dx * dx <= 0x1_0000_0000_0000_0000) by (nonlinear_arith)
        requires
            -0x1_0000_0000 <= dx <= 0x1_0000_0000,
    ;
    assert(0 <= dy * dy <= 0x1_0000_0000_0000_0000) by (nonlinear_arith)
        requires
            -0x1_0000_0000 <= dy <= 0x1_0000_0000,
    ;
    lemma_floor_sqrt_exists(n);
    if r >= 0x2_0000_0000 {
        assert(r * r >= 0x4_0000_0000_0000_0000) by (nonlinear_arith)
            requires
                r >= 0x2_0000_0000,
        ;
    }
}

} // verus!
