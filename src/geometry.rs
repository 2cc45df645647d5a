use vstd::prelude::*;

verus! {

/// A point in screen or client coordinates, in pixels.
#[derive(Clone, Copy, Debug, PartialEq, Eq, Structural)]
pub struct Point {
    pub x: i32,
    pub y: i32,
}

/// An axis-aligned rectangle, in pixels.
#[derive(Clone, Copy, Debug, PartialEq, Eq, Structural)]
pub struct Rect {
    pub left: i32,
    pub top: i32,
    pub right: i32,
    pub bottom: i32,
}

/// Largest absolute coordinate that the direction arithmetic handles exactly.
pub const COORD_LIMIT: i32 = 524288;

pub open spec fn coord_in_range(v: int) -> bool {
    -COORD_LIMIT <= v <= COORD_LIMIT
}

impl Point {
    pub open spec fn in_range_spec(self) -> bool {
        coord_in_range(self.x as int) && coord_in_range(self.y as int)
    }

    /// Whether both coordinates lie within `COORD_LIMIT` of the origin.
    pub fn in_range(&self) -> (r: bool)
        ensures
            r == self.in_range_spec(),
    {
        -COORD_LIMIT <= self.x && self.x <= COORD_LIMIT && -COORD_LIMIT <= self.y && self.y
            <= COORD_LIMIT
    }
}

/// Half of `v`, rounded toward zero (Rust's integer division by 2).
pub open spec fn half_of(v: int) -> int {
    if v >= 0 {
        v / 2
    } else {
        -((-v) / 2)
    }
}

/// A vector of the plane, as its two components.
pub type Vec2 = (int, int);

/// The vector from `from` to `to`.
pub open spec fn offset(from: Point, to: Point) -> Vec2 {
    (to.x - from.x, to.y - from.y)
}

pub open spec fn dot(a: Vec2, b: Vec2) -> int {
    a.0 * b.0 + a.1 * b.1
}

pub open spec fn sq_len(a: Vec2) -> int {
    dot(a, a)
}

/// The angle between `a` and `b` has a cosine above 19/20 (within about
/// 18 degrees); false when either vector is zero.
pub open spec fn aligned(a: Vec2, b: Vec2) -> bool {
    dot(a, b) > 0 && 400 * (dot(a, b) * dot(a, b)) > 361 * (sq_len(a) * sq_len(b))
}

/// `a` is longer than `d` (for `d >= 0`).
pub open spec fn reaches(a: Vec2, d: int) -> bool {
    sq_len(a) > d * d
}

/// `c` makes a strictly smaller angle with `p` than with `q`, where both
/// angles are below a right angle: the cosines compare as
/// `dot(c, p) / |p|` against `dot(c, q) / |q|`.
pub open spec fn closer_dir(c: Vec2, p: Vec2, q: Vec2) -> bool {
    dot(c, p) * dot(c, p) * sq_len(q) > dot(c, q) * dot(c, q) * sq_len(p)
}

/// The two angles of `closer_dir` are equal.
pub open spec fn same_dir(c: Vec2, p: Vec2, q: Vec2) -> bool {
    dot(c, p) * dot(c, p) * sq_len(q) == dot(c, q) * dot(c, q) * sq_len(p)
}

/// Relies on vecmath::vec2_sub: the componentwise difference `a - b`.
#[verifier::external_body]
fn vec_sub(a: [i64; 2], b: [i64; 2]) -> (r: [i64; 2])
    requires
        i64::MIN <= a[0] - b[0] <= i64::MAX,
        i64::MIN <= a[1] - b[1] <= i64::MAX,
    ensures
        r[0] == a[0] - b[0],
        r[1] == a[1] - b[1],
{
    vecmath::vec2_sub(a, b)
}

/// Relies on vecmath::vec2_dot: `a[0] * b[0] + a[1] * b[1]`.
#[verifier::external_body]
fn vec_dot(a: [i64; 2], b: [i64; 2]) -> (r: i64)
    requires
        i64::MIN <= a[0] * b[0] <= i64::MAX,
        i64::MIN <= a[1] * b[1] <= i64::MAX,
        i64::MIN <= a[0] * b[0] + a[1] * b[1] <= i64::MAX,
    ensures
        r == a[0] * b[0] + a[1] * b[1],
{
    vecmath::vec2_dot(a, b)
}

/// Relies on vecmath::vec2_square_len: `a[0] * a[0] + a[1] * a[1]`.
#[verifier::external_body]
fn vec_square_len(a: [i64; 2]) -> (r: i64)
    requires
        a[0] * a[0] <= i64::MAX,
        a[1] * a[1] <= i64::MAX,
        a[0] * a[0] + a[1] * a[1] <= i64::MAX,
    ensures
        r == a[0] * a[0] + a[1] * a[1],
{
    vecmath::vec2_square_len(a)
}

/// Bound on the largest component of an offset between two points in range.
pub const OFFSET_LIMIT: i64 = 1048576;

/// Bound on a dot product or a squared length of such offsets.
pub const PRODUCT_LIMIT: i64 = 2199023255552;

proof fn lemma_mul_within(a: int, b: int, k: int)
    requires
        0 <= k,
        -k <= a <= k,
        -k <= b <= k,
    ensures
        -(k * k) <= a * b <= k * k,
{
    assert(-(k * k) <= a * b <= k * k) by (nonlinear_arith)
        requires
            0 <= k,
            -k <= a <= k,
            -k <= b <= k,
    ;
}

/// The offset from `from` to `to`.
pub fn offset_of(from: Point, to: Point) -> (r: [i64; 2])
    requires
        from.in_range_spec(),
        to.in_range_spec(),
    ensures
        r[0] == offset(from, to).0,
        r[1] == offset(from, to).1,
        -OFFSET_LIMIT <= r[0] <= OFFSET_LIMIT,
        -OFFSET_LIMIT <= r[1] <= OFFSET_LIMIT,
{
    vec_sub([to.x as i64, to.y as i64], [from.x as i64, from.y as i64])
}

/// The dot product of two offsets of `offset_of`.
pub fn dot_of(a: [i64; 2], b: [i64; 2]) -> (r: i64)
    requires
        -OFFSET_LIMIT <= a[0] <= OFFSET_LIMIT,
        -OFFSET_LIMIT <= a[1] <= OFFSET_LIMIT,
        -OFFSET_LIMIT <= b[0] <= OFFSET_LIMIT,
        -OFFSET_LIMIT <= b[1] <= OFFSET_LIMIT,
    ensures
        r == dot((a[0] as int, a[1] as int), (b[0] as int, b[1] as int)),
        -PRODUCT_LIMIT <= r <= PRODUCT_LIMIT,
{
    proof {
        lemma_mul_within(a[0] as int, b[0] as int, OFFSET_LIMIT as int);
        lemma_mul_within(a[1] as int, b[1] as int, OFFSET_LIMIT as int);
    }
    vec_dot(a, b)
}

/// The squared length of an offset of `offset_of`.
pub fn sq_len_of(a: [i64; 2]) -> (r: i64)
    requires
        -OFFSET_LIMIT <= a[0] <= OFFSET_LIMIT,
        -OFFSET_LIMIT <= a[1] <= OFFSET_LIMIT,
    ensures
        r == sq_len((a[0] as int, a[1] as int)),
        0 <= r <= PRODUCT_LIMIT,
{
    proof {
        lemma_mul_within(a[0] as int, a[0] as int, OFFSET_LIMIT as int);
        lemma_mul_within(a[1] as int, a[1] as int, OFFSET_LIMIT as int);
        assert(a[0] * a[0] >= 0) by (nonlinear_arith);
        assert(a[1] * a[1] >= 0) by (nonlinear_arith);
    }
    vec_square_len(a)
}

proof fn lemma_weighted_within(d: int, s: int, k: int)
    requires
        0 <= k,
        -k <= d <= k,
        0 <= s <= k,
    ensures
        0 <= d * d <= k * k,
        0 <= d * d * s <= k * k * k,
{
    lemma_mul_within(d, d, k);
    assert(0 <= d * d) by (nonlinear_arith);
    assert(0 <= d * d * s <= k * k * k) by (nonlinear_arith)
        requires
            0 <= d * d <= k * k,
            0 <= s <= k,
            0 <= k,
    ;
}

/// Whether `d * d * sq_q > e * e * sq_p`: the direction with dot product `d`
/// and squared length `sq_p` is closer to the reference direction than the
/// one with `e` and `sq_q` (both dot products positive).
pub fn closer_by(d: i64, sq_p: i64, e: i64, sq_q: i64) -> (r: bool)
    requires
        -PRODUCT_LIMIT <= d <= PRODUCT_LIMIT,
        -PRODUCT_LIMIT <= e <= PRODUCT_LIMIT,
        0 <= sq_p <= PRODUCT_LIMIT,
        0 <= sq_q <= PRODUCT_LIMIT,
    ensures
        r == (d * d * sq_q > e * e * sq_p),
{
    proof {
        lemma_weighted_within(d as int, sq_q as int, PRODUCT_LIMIT as int);
        lemma_weighted_within(e as int, sq_p as int, PRODUCT_LIMIT as int);
    }
    let lhs: i128 = (d as i128) * (d as i128) * (sq_q as i128);
    let rhs: i128 = (e as i128) * (e as i128) * (sq_p as i128);
    lhs > rhs
}

/// Whether the vectors with dot product `d` and squared lengths `sq_a`,
/// `sq_b` satisfy `aligned`.
pub fn aligned_by(d: i64, sq_a: i64, sq_b: i64) -> (r: bool)
    requires
        -PRODUCT_LIMIT <= d <= PRODUCT_LIMIT,
        0 <= sq_a <= PRODUCT_LIMIT,
        0 <= sq_b <= PRODUCT_LIMIT,
    ensures
        r == (d > 0 && 400 * (d * d) > 361 * (sq_a * sq_b)),
{
    proof {
        lemma_weighted_within(d as int, 0, PRODUCT_LIMIT as int);
        lemma_mul_within(sq_a as int, sq_b as int, PRODUCT_LIMIT as int);
    }
    let dd: i128 = (d as i128) * (d as i128);
    let ss: i128 = (sq_a as i128) * (sq_b as i128);
    d > 0 && 400 * dd > 361 * ss
}

/// Whether the vector with squared length `sq` is longer than `dist`.
pub fn reaches_by(sq: i64, dist: u32) -> (r: bool)
    ensures
        r == (sq > dist * dist),
{
    proof {
        lemma_mul_within(dist as int, dist as int, 0x1_0000_0000);
    }
    let dd: i128 = (dist as i128) * (dist as i128);
    sq as i128 > dd
}

/// A direction of positive dot product with another is not zero.
pub proof fn lemma_sq_len_positive(a: Vec2, b: Vec2)
    requires
        dot(a, b) > 0,
    ensures
        sq_len(b) > 0,
{
    if b.0 == 0 && b.1 == 0 {
        assert(dot(a, b) == 0) by (nonlinear_arith)
            requires
                b.0 == 0 && b.1 == 0,
        ;
    } else if b.0 != 0 {
        assert(b.0 * b.0 > 0) by (nonlinear_arith)
            requires
                b.0 != 0,
        ;
        assert(b.1 * b.1 >= 0) by (nonlinear_arith);
    } else {
        assert(b.1 * b.1 > 0) by (nonlinear_arith)
            requires
                b.1 != 0,
        ;
        assert(b.0 * b.0 >= 0) by (nonlinear_arith);
    }
}

/// `closer_dir` is transitive, and `same_dir` does not break the chain.
pub proof fn lemma_closer_chain(c: Vec2, x: Vec2, a: Vec2, b: Vec2)
    requires
        dot(c, x) > 0,
        dot(c, a) > 0,
        dot(c, b) > 0,
        closer_dir(c, x, a),
        closer_dir(c, a, b) || same_dir(c, a, b),
    ensures
        closer_dir(c, x, b),
{
    lemma_sq_len_positive(c, x);
    lemma_sq_len_positive(c, a);
    lemma_sq_len_positive(c, b);
    let wx = dot(c, x) * dot(c, x);
    let wa = dot(c, a) * dot(c, a);
    let wb = dot(c, b) * dot(c, b);
    let sx = sq_len(x);
    let sa = sq_len(a);
    let sb = sq_len(b);
    assert(wx * sb > wb * sx) by (nonlinear_arith)
        requires
            sx > 0,
            sa > 0,
            sb > 0,
            wx * sa > wa * sx,
            wa * sb >= wb * sa,
    ;
}

} // verus!
