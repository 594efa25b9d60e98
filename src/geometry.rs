use vstd::prelude::*;

verus! {

/// Fixed-point scale of the trigonometric tables: `sine(d) / TRIG_SCALE`
/// approximates the sine of `d` degrees.
pub const TRIG_SCALE: i64 = 10000;

/// Bound on the magnitude of every coordinate that geometry accepts.
pub const COORD_LIMIT: i64 = 0x100_0000_0000;

/// A point (or vector) in the plane, in fixed-point units.
#[derive(Clone, Copy, Debug, PartialEq, Eq, Structural)]
pub struct Point {
    pub x: i64,
    pub y: i64,
}

impl Point {
    pub fn new(x: i64, y: i64) -> (r: Point)
        ensures
            r == (Point { x, y }),
    {
        Point { x, y }
    }
}

/// Both coordinates lie within `[-COORD_LIMIT, COORD_LIMIT]`.
pub open spec fn in_range(p: Point) -> bool {
    -COORD_LIMIT <= p.x <= COORD_LIMIT && -COORD_LIMIT <= p.y <= COORD_LIMIT
}

/// Sine of `d` degrees for `0 <= d <= 90`, scaled by `TRIG_SCALE` and rounded.
pub open spec fn quarter_sine(d: u32) -> int {
    match d {
        0 => 0,
        1 => 175,
        2 => 349,
        3 => 523,
        4 => 698,
        5 => 872,
        6 => 1045,
        7 => 1219,
        8 => 1392,
        9 => 1564,
        10 => 1736,
        11 => 1908,
        12 => 2079,
        13 => 2250,
        14 => 2419,
        15 => 2588,
        16 => 2756,
        17 => 2924,
        18 => 3090,
        19 => 3256,
        20 => 3420,
        21 => 3584,
        22 => 3746,
        23 => 3907,
        24 => 4067,
        25 => 4226,
        26 => 4384,
        27 => 4540,
        28 => 4695,
        29 => 4848,
        30 => 5000,
        31 => 5150,
        32 => 5299,
        33 => 5446,
        34 => 5592,
        35 => 5736,
        36 => 5878,
        37 => 6018,
        38 => 6157,
        39 => 6293,
        40 => 6428,
        41 => 6561,
        42 => 6691,
        43 => 6820,
        44 => 6947,
        45 => 7071,
        46 => 7193,
        47 => 7314,
        48 => 7431,
        49 => 7547,
        50 => 7660,
        51 => 7771,
        52 => 7880,
        53 => 7986,
        54 => 8090,
        55 => 8192,
        56 => 8290,
        57 => 8387,
        58 => 8480,
        59 => 8572,
        60 => 8660,
        61 => 8746,
        62 => 8829,
        63 => 8910,
        64 => 8988,
        65 => 9063,
        66 => 9135,
        67 => 9205,
        68 => 9272,
        69 => 9336,
        70 => 9397,
        71 => 9455,
        72 => 9511,
        73 => 9563,
        74 => 9613,
        75 => 9659,
        76 => 9703,
        77 => 9744,
        78 => 9781,
        79 => 9816,
        80 => 9848,
        81 => 9877,
        82 => 9903,
        83 => 9925,
        84 => 9945,
        85 => 9962,
        86 => 9976,
        87 => 9986,
        88 => 9994,
        89 => 9998,
        _ => 10000,
    }
}

/// Sine of `d` degrees for `0 <= d < 360`, scaled by `TRIG_SCALE`.
pub open spec fn sine(d: int) -> int {
    if d <= 90 {
        quarter_sine(d as u32)
    } else if d <= 180 {
        quarter_sine((180 - d) as u32)
    } else if d <= 270 {
        -quarter_sine((d - 180) as u32)
    } else {
        -quarter_sine((360 - d) as u32)
    }
}

/// Cosine of `d` degrees (any `d >= 0`), scaled by `TRIG_SCALE`.
pub open spec fn cosine(d: int) -> int {
    sine((d + 90) % 360)
}

/// Floor division of integers.
pub open spec fn floor_div(a: int, b: int) -> int
    recommends
        b > 0,
{
    a / b
}

/// The rotation of `p` by `degrees` counter-clockwise about the origin, in
/// fixed point (each coordinate rounded down).
pub open spec fn rotated(p: Point, degrees: int) -> (int, int) {
    (
        floor_div(p.x * cosine(degrees % 360) - p.y * sine(degrees % 360), TRIG_SCALE as int),
        floor_div(p.x * sine(degrees % 360) + p.y * cosine(degrees % 360), TRIG_SCALE as int),
    )
}

fn quarter_sine_exec(d: u32) -> (r: i64)
    requires
        d <= 90,
    ensures
        r == quarter_sine(d),
        0 <= r <= TRIG_SCALE,
{
    match d {
        0 => 0,
        1 => 175,
        2 => 349,
        3 => 523,
        4 => 698,
        5 => 872,
        6 => 1045,
        7 => 1219,
        8 => 1392,
        9 => 1564,
        10 => 1736,
        11 => 1908,
        12 => 2079,
        13 => 2250,
        14 => 2419,
        15 => 2588,
        16 => 2756,
        17 => 2924,
        18 => 3090,
        19 => 3256,
        20 => 3420,
        21 => 3584,
        22 => 3746,
        23 => 3907,
        24 => 4067,
        25 => 4226,
        26 => 4384,
        27 => 4540,
        28 => 4695,
        29 => 4848,
        30 => 5000,
        31 => 5150,
        32 => 5299,
        33 => 5446,
        34 => 5592,
        35 => 5736,
        36 => 5878,
        37 => 6018,
        38 => 6157,
        39 => 6293,
        40 => 6428,
        41 => 6561,
        42 => 6691,
        43 => 6820,
        44 => 6947,
        45 => 7071,
        46 => 7193,
        47 => 7314,
        48 => 7431,
        49 => 7547,
        50 => 7660,
        51 => 7771,
        52 => 7880,
        53 => 7986,
        54 => 8090,
        55 => 8192,
        56 => 8290,
        57 => 8387,
        58 => 8480,
        59 => 8572,
        60 => 8660,
        61 => 8746,
        62 => 8829,
        63 => 8910,
        64 => 8988,
        65 => 9063,
        66 => 9135,
        67 => 9205,
        68 => 9272,
        69 => 9336,
        70 => 9397,
        71 => 9455,
        72 => 9511,
        73 => 9563,
        74 => 9613,
        75 => 9659,
        76 => 9703,
        77 => 9744,
        78 => 9781,
        79 => 9816,
        80 => 9848,
        81 => 9877,
        82 => 9903,
        83 => 9925,
        84 => 9945,
        85 => 9962,
        86 => 9976,
        87 => 9986,
        88 => 9994,
        89 => 9998,
        _ => 10000,
    }
}

/// Sine of `degrees` (taken modulo 360), scaled by `TRIG_SCALE`.
pub fn sine_of(degrees: u32) -> (r: i64)
    ensures
        r == sine(degrees as int % 360),
        -TRIG_SCALE <= r <= TRIG_SCALE,
{
    let d = degrees % 360;
    if d <= 90 {
        quarter_sine_exec(d)
    } else if d <= 180 {
        quarter_sine_exec(180 - d)
    } else if d <= 270 {
        -quarter_sine_exec(d - 180)
    } else {
        -quarter_sine_exec(360 - d)
    }
}

/// Cosine of `degrees` (taken modulo 360), scaled by `TRIG_SCALE`.
pub fn cosine_of(degrees: u32) -> (r: i64)
    ensures
        r == cosine(degrees as int % 360),
        -TRIG_SCALE <= r <= TRIG_SCALE,
{
    let d = degrees % 360;
    sine_of(d + 90)
}

/// Floor division by a positive divisor.
pub fn div_floor(a: i128, b: i128) -> (r: i128)
    requires
        b > 0,
    ensures
        r == floor_div(a as int, b as int),
{
    if a >= 0 {
        a / b
    } else {
        let w: i128 = -(a + 1);
        let q: i128 = w / b;
        proof {
            let ai = a as int;
            let bi = b as int;
            let wi = w as int;
            let qi = q as int;
            assert(wi == qi * bi + wi % bi) by (nonlinear_arith)
                requires
                    bi > 0,
                    qi == wi / bi,
            ;
            assert(0 <= wi % bi < bi) by (nonlinear_arith)
                requires
                    bi > 0,
            ;
            let rem = bi - 1 - wi % bi;
            assert(ai == (-qi - 1) * bi + rem) by (nonlinear_arith)
                requires
                    ai == -wi - 1,
                    wi == qi * bi + wi % bi,
                    rem == bi - 1 - wi % bi,
            ;
            vstd::arithmetic::div_mod::lemma_fundamental_div_mod_converse(ai, bi, -qi - 1, rem);
        }
        -q - 1
    }
}

/// Moves every point by `position`: the new points are `p + position`.
pub fn translate_points(points: &mut Vec<Point>, position: Point)
    requires
        forall|i: int| 0 <= i < old(points)@.len() ==> in_range(#[trigger] old(points)@[i]),
        in_range(position),
    ensures
        final(points)@.len() == old(points)@.len(),
        forall|i: int|
            0 <= i < final(points)@.len() ==> #[trigger] final(points)@[i] == (Point {
                x: (old(points)@[i].x + position.x) as i64,
                y: (old(points)@[i].y + position.y) as i64,
            }),
{
    let n = points.len();
    let mut i: usize = 0;
    while i < n
        invariant
            n == points@.len(),
            n == old(points)@.len(),
            0 <= i <= n,
            in_range(position),
            forall|j: int| i <= j < n ==> #[trigger] points@[j] == old(points)@[j],
            forall|j: int| i <= j < n ==> in_range(#[trigger] old(points)@[j]),
            forall|j: int|
                0 <= j < i ==> #[trigger] points@[j] == (Point {
                    x: (old(points)@[j].x + position.x) as i64,
                    y: (old(points)@[j].y + position.y) as i64,
                }),
        decreases n - i,
    {
        let p = points[i];
        points.set(i, Point { x: p.x + position.x, y: p.y + position.y });
        i = i + 1;
    }
}

/// Rotates `point` counter-clockwise by `angle` degrees about the origin.
pub fn rotation_transform(point: &Point, angle: u32) -> (r: Point)
    requires
        in_range(*point),
    ensures
        (r.x as int, r.y as int) == rotated(*point, angle as int),
        -2 * COORD_LIMIT <= r.x <= 2 * COORD_LIMIT,
        -2 * COORD_LIMIT <= r.y <= 2 * COORD_LIMIT,
{
    let c = cosine_of(angle) as i128;
    let s = sine_of(angle) as i128;
    let x = point.x as i128;
    let y = point.y as i128;
    proof {
        assert(-COORD_LIMIT * TRIG_SCALE <= x * c <= COORD_LIMIT * TRIG_SCALE) by (nonlinear_arith)
            requires -COORD_LIMIT <= x <= COORD_LIMIT, -TRIG_SCALE <= c <= TRIG_SCALE;
        assert(-COORD_LIMIT * TRIG_SCALE <= y * s <= COORD_LIMIT * TRIG_SCALE) by (nonlinear_arith)
            requires -COORD_LIMIT <= y <= COORD_LIMIT, -TRIG_SCALE <= s <= TRIG_SCALE;
        assert(-COORD_LIMIT * TRIG_SCALE <= x * s <= COORD_LIMIT * TRIG_SCALE) by (nonlinear_arith)
            requires -COORD_LIMIT <= x <= COORD_LIMIT, -TRIG_SCALE <= s <= TRIG_SCALE;
        assert(-COORD_LIMIT * TRIG_SCALE <= y * c <= COORD_LIMIT * TRIG_SCALE) by (nonlinear_arith)
            requires -COORD_LIMIT <= y <= COORD_LIMIT, -TRIG_SCALE <= c <= TRIG_SCALE;
    }
    let nx = div_floor(x * c - y * s, TRIG_SCALE as i128);
    let ny = div_floor(x * s + y * c, TRIG_SCALE as i128);
    proof {
        bound_scaled(x * c - y * s);
        bound_scaled(x * s + y * c);
    }
    Point { x: nx as i64, y: ny as i64 }
}

proof fn bound_scaled(v: int)
    requires
        -2 * COORD_LIMIT * TRIG_SCALE <= v <= 2 * COORD_LIMIT * TRIG_SCALE,
    ensures
        -2 * COORD_LIMIT <= floor_div(v, TRIG_SCALE as int) <= 2 * COORD_LIMIT,
{
    let q = v / (TRIG_SCALE as int);
    vstd::arithmetic::div_mod::lemma_fundamental_div_mod(v, TRIG_SCALE as int);
    assert(-2 * COORD_LIMIT <= q <= 2 * COORD_LIMIT) by (nonlinear_arith)
        requires
            v == TRIG_SCALE * q + v % (TRIG_SCALE as int),
            0 <= v % (TRIG_SCALE as int) < TRIG_SCALE,
            -2 * COORD_LIMIT * TRIG_SCALE <= v <= 2 * COORD_LIMIT * TRIG_SCALE,
    ;
}

/// The unit vector of heading `angle` (degrees clockwise from "up", y
/// pointing down) scaled by `length`: `(length * sin, -length * cos)`.
pub open spec fn heading(angle: int, length: int) -> (int, int) {
    (
        floor_div(length * sine(angle % 360), TRIG_SCALE as int),
        floor_div(-length * cosine(angle % 360), TRIG_SCALE as int),
    )
}

/// The vector of magnitude `length` pointing along heading `angle`.
pub fn angle_to_vec(angle: u32, length: i64) -> (r: Point)
    requires
        0 <= length <= COORD_LIMIT,
    ensures
        (r.x as int, r.y as int) == heading(angle as int, length as int),
        -COORD_LIMIT <= r.x <= COORD_LIMIT,
        -COORD_LIMIT <= r.y <= COORD_LIMIT,
{
    let s = sine_of(angle) as i128;
    let c = cosine_of(angle) as i128;
    let l = length as i128;
    proof {
        assert(-COORD_LIMIT * TRIG_SCALE <= l * s <= COORD_LIMIT * TRIG_SCALE) by (nonlinear_arith)
            requires 0 <= l <= COORD_LIMIT, -TRIG_SCALE <= s <= TRIG_SCALE;
        assert(-COORD_LIMIT * TRIG_SCALE <= -l * c <= COORD_LIMIT * TRIG_SCALE) by (nonlinear_arith)
            requires 0 <= l <= COORD_LIMIT, -TRIG_SCALE <= c <= TRIG_SCALE;
        bound_scaled(l * s);
        bound_scaled(-l * c);
    }
    let x = div_floor(l * s, TRIG_SCALE as i128);
    let y = div_floor(-l * c, TRIG_SCALE as i128);
    proof {
        scaled_within(l * s);
        scaled_within(-l * c);
    }
    Point { x: x as i64, y: y as i64 }
}

/// The point at distance `length` from the origin in direction `degrees`
/// (counter-clockwise from the x axis).
pub open spec fn polar(length: int, degrees: int) -> (int, int) {
    (
        floor_div(length * cosine(degrees % 360), TRIG_SCALE as int),
        floor_div(length * sine(degrees % 360), TRIG_SCALE as int),
    )
}

/// The point at distance `length` from the origin in direction `degrees`.
pub fn polar_point(length: i64, degrees: u32) -> (r: Point)
    requires
        0 <= length <= COORD_LIMIT,
    ensures
        (r.x as int, r.y as int) == polar(length as int, degrees as int),
        in_range(r),
{
    let s = sine_of(degrees) as i128;
    let c = cosine_of(degrees) as i128;
    let l = length as i128;
    proof {
        assert(-COORD_LIMIT * TRIG_SCALE <= l * c <= COORD_LIMIT * TRIG_SCALE) by (nonlinear_arith)
            requires 0 <= l <= COORD_LIMIT, -TRIG_SCALE <= c <= TRIG_SCALE;
        assert(-COORD_LIMIT * TRIG_SCALE <= l * s <= COORD_LIMIT * TRIG_SCALE) by (nonlinear_arith)
            requires 0 <= l <= COORD_LIMIT, -TRIG_SCALE <= s <= TRIG_SCALE;
    }
    let x = div_floor(l * c, TRIG_SCALE as i128);
    let y = div_floor(l * s, TRIG_SCALE as i128);
    proof {
        scaled_within(l * c);
        scaled_within(l * s);
    }
    Point { x: x as i64, y: y as i64 }
}

proof fn scaled_within(v: int)
    requires
        -COORD_LIMIT * TRIG_SCALE <= v <= COORD_LIMIT * TRIG_SCALE,
    ensures
        -COORD_LIMIT <= floor_div(v, TRIG_SCALE as int) <= COORD_LIMIT,
{
    vstd::arithmetic::div_mod::lemma_fundamental_div_mod(v, TRIG_SCALE as int);
    let q = v / (TRIG_SCALE as int);
    assert(-COORD_LIMIT <= q <= COORD_LIMIT) by (nonlinear_arith)
        requires
            v == TRIG_SCALE * q + v % (TRIG_SCALE as int),
            0 <= v % (TRIG_SCALE as int) < TRIG_SCALE,
            -COORD_LIMIT * TRIG_SCALE <= v <= COORD_LIMIT * TRIG_SCALE,
    ;
}

} // verus!
