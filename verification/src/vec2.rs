//! Fixed-point plane geometry for the simulation world.
//!
//! A coordinate is an `i64` counting 1/1024ths of a world unit, clamped
//! into `[-COORD_LIMIT, COORD_LIMIT]`, so every operation the simulation
//! needs (translation, scaling, squared distance, direction of one point
//! from another) is exact integer arithmetic with proved overflow bounds.

use vstd::prelude::*;

verus! {

/// Sub-units per world unit.
pub const SCALE: i64 = 1024;

/// Every stored coordinate is clamped into `[-COORD_LIMIT, COORD_LIMIT]`.
pub const COORD_LIMIT: i64 = 0x100_0000_0000;

#[derive(Clone, Copy, PartialEq, Eq, Structural, Debug)]
pub struct Vec2 {
    pub x: i64,
    pub y: i64,
}

pub open spec fn in_range(v: int) -> bool {
    -COORD_LIMIT <= v <= COORD_LIMIT
}

pub open spec fn clamp_spec(v: int) -> int {
    if v < -COORD_LIMIT {
        -COORD_LIMIT as int
    } else if v > COORD_LIMIT {
        COORD_LIMIT as int
    } else {
        v
    }
}

/// Clamp a wide intermediate back into coordinate range.
fn clamp_i128(v: i128) -> (r: i64)
    ensures
        r as int == clamp_spec(v as int),
        in_range(r as int),
{
    let lim: i128 = COORD_LIMIT as i128;
    if v < -lim {
        -COORD_LIMIT
    } else if v > lim {
        COORD_LIMIT
    } else {
        v as i64
    }
}

impl Vec2 {
    /// All coordinates the world ever stores satisfy this.
    pub open spec fn wf(self) -> bool {
        in_range(self.x as int) && in_range(self.y as int)
    }

    pub fn new(x: i64, y: i64) -> (r: Vec2)
        ensures
            r.x == x,
            r.y == y,
    {
        Vec2 { x, y }
    }

    pub open spec fn clamped_spec(self) -> Vec2 {
        Vec2 { x: clamp_spec(self.x as int) as i64, y: clamp_spec(self.y as int) as i64 }
    }

    /// Clamp both components into coordinate range.
    pub fn clamped(self) -> (r: Vec2)
        ensures
            r == self.clamped_spec(),
            r.wf(),
    {
        Vec2 { x: clamp_i128(self.x as i128), y: clamp_i128(self.y as i128) }
    }

    pub open spec fn add_spec(self, o: Vec2) -> Vec2 {
        Vec2 {
            x: clamp_spec(self.x + o.x) as i64,
            y: clamp_spec(self.y + o.y) as i64,
        }
    }

    /// Componentwise addition, clamped into coordinate range.
    pub fn add_clamped(self, o: Vec2) -> (r: Vec2)
        ensures
            r == self.add_spec(o),
            r.wf(),
    {
        Vec2 {
            x: clamp_i128(self.x as i128 + o.x as i128),
            y: clamp_i128(self.y as i128 + o.y as i128),
        }
    }

    pub open spec fn scale_spec(self, k: int) -> Vec2 {
        Vec2 {
            x: clamp_spec(self.x * k) as i64,
            y: clamp_spec(self.y * k) as i64,
        }
    }

    /// Scalar multiplication, clamped into coordinate range.
    pub fn scaled_clamped(self, k: i64) -> (r: Vec2)
        ensures
            r == self.scale_spec(k as int),
            r.wf(),
    {
        proof {
            lemma_mul_bound(self.x as int, k as int, 0x8000_0000_0000_0000, 0x8000_0000_0000_0000);
            lemma_mul_bound(self.y as int, k as int, 0x8000_0000_0000_0000, 0x8000_0000_0000_0000);
        }
        Vec2 {
            x: clamp_i128(self.x as i128 * k as i128),
            y: clamp_i128(self.y as i128 * k as i128),
        }
    }
}

pub open spec fn dist_sq_spec(a: Vec2, b: Vec2) -> int {
    (a.x - b.x) * (a.x - b.x) + (a.y - b.y) * (a.y - b.y)
}

/// Squared distance between two in-range points.
pub fn dist_sq(a: Vec2, b: Vec2) -> (r: u128)
    requires
        a.wf(),
        b.wf(),
    ensures
        r as int == dist_sq_spec(a, b),
{
    let dx: i128 = a.x as i128 - b.x as i128;
    let dy: i128 = a.y as i128 - b.y as i128;
    proof {
        lemma_square_bound(dx as int, 2 * COORD_LIMIT as int);
        lemma_square_bound(dy as int, 2 * COORD_LIMIT as int);
    }
    (dx * dx + dy * dy) as u128
}

/// For |a| <= aa and |b| <= bb, |a*b| <= aa*bb.
proof fn lemma_mul_bound(a: int, b: int, aa: int, bb: int)
    requires
        -aa <= a <= aa,
        -bb <= b <= bb,
        0 <= aa,
        0 <= bb,
    ensures
        -(aa * bb) <= a * b <= aa * bb,
{
    assert(-(aa * bb) <= a * b <= aa * bb) by (nonlinear_arith)
        requires
            -aa <= a <= aa,
            -bb <= b <= bb,
            0 <= aa,
            0 <= bb,
    ;
}

/// For |v| <= m, 0 <= v*v <= m*m.
proof fn lemma_square_bound(v: int, m: int)
    requires
        -m <= v <= m,
        0 <= m,
    ensures
        0 <= v * v <= m * m,
{
    assert(0 <= v * v <= m * m) by (nonlinear_arith)
        requires
            -m <= v <= m,
            0 <= m,
    ;
}

/// Floor of the square root, defined by counting up.
pub open spec fn sqrt_floor(n: int) -> int
    decreases n,
{
    if n <= 0 {
        0
    } else {
        let r = sqrt_floor(n - 1);
        if (r + 1) * (r + 1) <= n {
            r + 1
        } else {
            r
        }
    }
}

pub proof fn lemma_sqrt_floor(n: int)
    requires
        n >= 0,
    ensures
        sqrt_floor(n) >= 0,
        sqrt_floor(n) * sqrt_floor(n) <= n,
        n < (sqrt_floor(n) + 1) * (sqrt_floor(n) + 1),
    decreases n,
{
    if n == 0 {
    } else {
        lemma_sqrt_floor(n - 1);
        let r = sqrt_floor(n - 1);
        if (r + 1) * (r + 1) <= n {
            assert(n <= (r + 1) * (r + 1)) by (nonlinear_arith)
                requires
                    n - 1 < (r + 1) * (r + 1),
            ;
            assert((r + 1) * (r + 1) < (r + 2) * (r + 2)) by (nonlinear_arith)
                requires
                    r >= 0,
            ;
        }
    }
}

pub proof fn lemma_sqrt_floor_unique(n: int, r: int)
    requires
        n >= 0,
        r >= 0,
        r * r <= n,
        n < (r + 1) * (r + 1),
    ensures
        r == sqrt_floor(n),
{
    lemma_sqrt_floor(n);
    let s = sqrt_floor(n);
    assert(r == s) by (nonlinear_arith)
        requires
            r >= 0,
            s >= 0,
            r * r <= n,
            n < (r + 1) * (r + 1),
            s * s <= n,
            n < (s + 1) * (s + 1),
    ;
}

/// Floor of the square root, by binary search.
pub fn isqrt(n: u128) -> (r: u64)
    ensures
        r as int == sqrt_floor(n as int),
{
    let mut lo: u64 = 0;
    let mut hi: u64 = 0xFFFF_FFFF_FFFF_FFFF;
    while lo < hi
        invariant
            lo <= hi,
            (lo as int) * (lo as int) <= n as int,
            (n as int) < (hi as int + 1) * (hi as int + 1),
        decreases hi - lo,
    {
        let mid: u64 = hi - (hi - lo) / 2;
        proof {
            lemma_mul_bound(mid as int, mid as int, 0xFFFF_FFFF_FFFF_FFFF, 0xFFFF_FFFF_FFFF_FFFF);
        }
        let sq: u128 = (mid as u128) * (mid as u128);
        if sq <= n {
            lo = mid;
        } else {
            assert((n as int) < (mid as int) * (mid as int));
            hi = mid - 1;
        }
    }
    proof {
        lemma_sqrt_floor_unique(n as int, lo as int);
    }
    lo
}

/// Fixed-point quotient `d * SCALE / l`, rounded toward zero.
pub open spec fn scaled_div(d: int, l: int) -> int
    recommends
        l > 0,
{
    if d >= 0 {
        (d * SCALE) / l
    } else {
        -((-d * SCALE) / l)
    }
}

pub open spec fn dir_len_sq(from: Vec2, to: Vec2) -> int {
    (to.x - from.x) * (to.x - from.x) + (to.y - from.y) * (to.y - from.y)
}

/// Fixed-point unit vector pointing from `from` toward `to`; meaningful only
/// when the two differ.
pub open spec fn norm_dir_spec(from: Vec2, to: Vec2) -> Vec2 {
    let l = sqrt_floor(dir_len_sq(from, to));
    Vec2 {
        x: scaled_div(to.x - from.x, l) as i64,
        y: scaled_div(to.y - from.y, l) as i64,
    }
}

/// One signed component of the normalized direction: |d| <= l gives
/// |result| <= SCALE, and the unsigned quotient matches `scaled_div`.
fn norm_component(d: i128, l: u64) -> (r: i64)
    requires
        1 <= l,
        -(l as int) <= d as int <= l as int,
        l as int <= 0x8000_0000_0000,
    ensures
        r as int == scaled_div(d as int, l as int),
        -SCALE <= r as int <= SCALE,
{
    let a: u128 = if d < 0 {
        (-d) as u128
    } else {
        d as u128
    };
    proof {
        assert(a as int <= l as int);
        vstd::arithmetic::mul::lemma_mul_inequality(a as int, l as int, SCALE as int);
        vstd::arithmetic::div_mod::lemma_div_is_ordered(
            (a as int) * (SCALE as int),
            (l as int) * (SCALE as int),
            l as int,
        );
        vstd::arithmetic::div_mod::lemma_div_multiples_vanish(SCALE as int, l as int);
        vstd::arithmetic::div_mod::lemma_div_pos_is_pos((a as int) * (SCALE as int), l as int);
    }
    let m: u128 = a * (SCALE as u128) / (l as u128);
    if d < 0 {
        -(m as i64)
    } else {
        m as i64
    }
}

/// Fixed-point unit direction from `from` toward `to`: `None` exactly when
/// the points coincide, else the vector given by `norm_dir_spec`.
pub fn normalize_dir(from: Vec2, to: Vec2) -> (r: Option<Vec2>)
    requires
        from.wf(),
        to.wf(),
    ensures
        (r is None) <==> from == to,
        r matches Some(d) ==> d == norm_dir_spec(from, to) && d.wf(),
{
    let dx: i128 = to.x as i128 - from.x as i128;
    let dy: i128 = to.y as i128 - from.y as i128;
    if dx == 0 && dy == 0 {
        assert(from == to);
        return None;
    }
    proof {
        lemma_square_bound(dx as int, 2 * COORD_LIMIT as int);
        lemma_square_bound(dy as int, 2 * COORD_LIMIT as int);
        assert(dx as int != 0 ==> (dx as int) * (dx as int) >= 1) by (nonlinear_arith);
        assert(dy as int != 0 ==> (dy as int) * (dy as int) >= 1) by (nonlinear_arith);
    }
    let d2: u128 = (dx * dx + dy * dy) as u128;
    let l: u64 = isqrt(d2);
    proof {
        lemma_sqrt_floor(d2 as int);
        assert(d2 as int >= 1) by (nonlinear_arith)
            requires
                (dx as int) * (dx as int) + (dy as int) * (dy as int) == d2 as int,
                dx as int != 0 || dy as int != 0,
        ;
        assert(l as int >= 1) by (nonlinear_arith)
            requires
                d2 as int >= 1,
                (d2 as int) < ((l as int) + 1) * ((l as int) + 1),
                l as int >= 0,
        ;
        assert(l as int <= 0x8000_0000_0000) by (nonlinear_arith)
            requires
                (l as int) * (l as int) <= d2 as int,
                d2 as int <= 8 * (COORD_LIMIT as int) * (COORD_LIMIT as int),
                l as int >= 0,
        ;
        // each signed component is bounded by the whole length
        assert(-(l as int) <= dx as int <= l as int) by (nonlinear_arith)
            requires
                (dx as int) * (dx as int) + (dy as int) * (dy as int) == d2 as int,
                (dy as int) * (dy as int) >= 0,
                (d2 as int) < ((l as int) + 1) * ((l as int) + 1),
                (l as int) >= 0,
        ;
        assert(-(l as int) <= dy as int <= l as int) by (nonlinear_arith)
            requires
                (dx as int) * (dx as int) + (dy as int) * (dy as int) == d2 as int,
                (dx as int) * (dx as int) >= 0,
                (d2 as int) < ((l as int) + 1) * ((l as int) + 1),
                (l as int) >= 0,
        ;
    }
    let nx: i64 = norm_component(dx, l);
    let ny: i64 = norm_component(dy, l);
    Some(Vec2 { x: nx, y: ny })
}

} // verus!
