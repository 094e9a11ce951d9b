use crate::cache::{
    decode_anchor_cache, decode_spec, encode_anchor_cache, encode_spec, lemma_cache_round_trip,
    StoredPoint,
};
use crate::geometry::Point;
use vstd::arithmetic::power2::{
    lemma2_to64, lemma2_to64_rest, lemma_pow2_adds, lemma_pow2_pos, lemma_pow2_strictly_increases,
    pow2,
};
use vstd::bits::{lemma_u64_shl_is_mul, lemma_u64_shr_is_div};
use vstd::prelude::*;

verus! {

/// The 52 fraction bits of an IEEE-754 double.
pub open spec fn fraction_mask() -> u64 {
    0xf_ffff_ffff_ffffu64
}

/// `bits` is the IEEE-754 double equal to `v / 256` exactly: zero for zero,
/// else positive and normal with `(2^52 + fraction) / 2^(1075 - exponent) == v / 256`.
pub open spec fn exact_double(bits: u64, v: u32) -> bool {
    if v == 0 {
        bits == 0
    } else {
        let e = (bits >> 52u64) & 0x7ffu64;
        &&& bits >> 63u64 == 0
        &&& 0 < e < 1067
        &&& (bits & fraction_mask()) + pow2(52) == v * pow2((1067 - e) as nat)
    }
}

/// The bit pattern of the double equal to `v / 256`.
pub open spec fn double_bits(v: u32) -> u64 {
    choose|b: u64| exact_double(b, v)
}

/// A value has one double only.
pub proof fn lemma_exact_double_unique(b1: u64, b2: u64, v: u32)
    requires
        exact_double(b1, v),
        exact_double(b2, v),
    ensures
        b1 == b2,
{
    if v > 0 {
        let e1 = (b1 >> 52u64) & 0x7ffu64;
        let e2 = (b2 >> 52u64) & 0x7ffu64;
        let f1 = b1 & 0xf_ffff_ffff_ffffu64;
        let f2 = b2 & 0xf_ffff_ffff_ffffu64;
        assert(f1 < 0x10_0000_0000_0000u64) by (bit_vector)
            requires f1 == b1 & 0xf_ffff_ffff_ffffu64;
        assert(f2 < 0x10_0000_0000_0000u64) by (bit_vector)
            requires f2 == b2 & 0xf_ffff_ffff_ffffu64;
        lemma2_to64_rest();
        assert(pow2(52) == 0x10_0000_0000_0000u64);
        let k1 = (1067 - e1) as nat;
        let k2 = (1067 - e2) as nat;
        if k1 != k2 {
            let (lo, hi, fh) = if k1 < k2 { (k1, k2, f2) } else { (k2, k1, f1) };
            assert(v * pow2(lo) >= pow2(52));
            lemma_pow2_adds(lo, (hi - lo) as nat);
            lemma2_to64();
            lemma_pow2_strictly_increases(0, (hi - lo) as nat);
            let g = pow2((hi - lo) as nat);
            assert(v * pow2(hi) == (v * pow2(lo)) * g) by (nonlinear_arith)
                requires
                    pow2(hi) == pow2(lo) * g,
            ;
            assert((v * pow2(lo)) * g >= 2 * pow2(52)) by (nonlinear_arith)
                requires
                    v * pow2(lo) >= pow2(52),
                    g >= 2,
            ;
            assert(fh + pow2(52) == v * pow2(hi));
        }
        assert(e1 == e2);
        assert(b1 == b2) by (bit_vector)
            requires
                b1 >> 63u64 == 0,
                b2 >> 63u64 == 0,
                (b1 >> 52u64) & 0x7ffu64 == (b2 >> 52u64) & 0x7ffu64,
                b1 & 0xf_ffff_ffff_ffffu64 == b2 & 0xf_ffff_ffff_ffffu64,
        ;
    }
}

/// The fixed-point coordinate (units of 1/256 pixel, truncated toward zero)
/// of the IEEE-754 double with bit pattern `bits`. Zeros and subnormals give
/// zero; negative, infinite, not-a-number values and values of 2^24 pixels
/// or more have none.
pub open spec fn fixed_of_bits(bits: u64) -> Option<u32> {
    let exponent = (bits >> 52u64) & 0x7ffu64;
    let fraction = bits & fraction_mask();
    let significand: int = pow2(52) + fraction;
    if bits >> 63u64 == 1 {
        if exponent == 0 && fraction == 0 {
            Some(0u32)
        } else {
            None
        }
    } else if exponent == 0 {
        Some(0u32)
    } else if exponent == 0x7ff {
        None
    } else {
        // floor(significand * 2^(exponent - 1075) * 256)
        let units = if exponent >= 1067 {
            significand * (pow2((exponent - 1067) as nat) as int)
        } else {
            significand / (pow2((1067 - exponent) as nat) as int)
        };
        if units <= u32::MAX {
            Some(units as u32)
        } else {
            None
        }
    }
}

/// The fixed-point coordinate held by the double with bit pattern `bits`.
pub fn coordinate_of_bits(bits: u64) -> (r: Option<u32>)
    ensures
        r == fixed_of_bits(bits),
{
    let sign = bits >> 63u64;
    let exponent = (bits >> 52u64) & 0x7ffu64;
    let fraction = bits & 0xf_ffff_ffff_ffffu64;
    if sign == 1 {
        if exponent == 0 && fraction == 0 {
            Some(0)
        } else {
            None
        }
    } else if exponent == 0 {
        Some(0)
    } else if exponent >= 1067 {
        proof {
            lemma2_to64_rest();
            lemma_pow2_pos((exponent - 1067) as nat);
            assert((pow2(52) + fraction) * pow2((exponent - 1067) as nat) >= pow2(52))
                by (nonlinear_arith)
                requires
                    pow2((exponent - 1067) as nat) >= 1,
                    fraction >= 0,
                    pow2(52) > 0,
            ;
        }
        None
    } else if 1067 - exponent >= 64 {
        proof {
            lemma2_to64_rest();
            lemma_pow2_strictly_increases(53, (1067 - exponent) as nat);
            assert(fraction < 0x10_0000_0000_0000u64) by (bit_vector)
                requires fraction == bits & 0xf_ffff_ffff_ffffu64;
            assert((pow2(52) + fraction) as int / (pow2((1067 - exponent) as nat) as int) == 0) by (nonlinear_arith)
                requires
                    pow2(52) + fraction < pow2(53),
                    pow2(53) < pow2((1067 - exponent) as nat),
                    0 <= fraction,
                    pow2(52) > 0,
            ;
        }
        Some(0)
    } else {
        let units = (fraction | (1u64 << 52u64)) >> (1067 - exponent);
        proof {
            lemma2_to64_rest();
            lemma_u64_shl_is_mul(1, 52);
            assert((fraction | (1u64 << 52u64)) == fraction + (1u64 << 52u64)) by (bit_vector)
                requires fraction == bits & 0xf_ffff_ffff_ffffu64;
            lemma_u64_shr_is_div(fraction | (1u64 << 52u64), (1067 - exponent) as u64);
        }
        if units <= u32::MAX as u64 {
            Some(units as u32)
        } else {
            None
        }
    }
}

proof fn lemma_encoding_decodes(v: u64, p: u64)
    requires
        v >> p == 1,
        p <= 31,
        v < 0x1_0000_0000u64,
    ensures
        ({
            let s = (52 - p) as u64;
            let bits = (((p + 1015) as u64) << 52u64) | ((v << s) & 0xf_ffff_ffff_ffffu64);
            &&& bits >> 63u64 == 0
            &&& (bits >> 52u64) & 0x7ffu64 == p + 1015
            &&& ((bits & 0xf_ffff_ffff_ffffu64) | (1u64 << 52u64)) >> s == v
        }),
{
    let s = (52 - p) as u64;
    assert(s + p == 52);
    let e = (p + 1015) as u64;
    let bits = (e << 52u64) | ((v << s) & 0xf_ffff_ffff_ffffu64);
    assert(bits >> 63u64 == 0 && (bits >> 52u64) & 0x7ffu64 == e) by (bit_vector)
        requires
            bits == (e << 52u64) | ((v << s) & 0xf_ffff_ffff_ffffu64),
            e <= 1046,
    ;
    assert(((bits & 0xf_ffff_ffff_ffffu64) | (1u64 << 52u64)) >> s == v) by (bit_vector)
        requires
            bits == (e << 52u64) | ((v << s) & 0xf_ffff_ffff_ffffu64),
            v >> p == 1,
            s + p == 52,
            p <= 31,
    ;
}

/// The bit pattern of the double that equals the fixed-point coordinate
/// `v` exactly (`v / 256`); every `u32` coordinate is such a double.
pub fn bits_of_coordinate(v: u32) -> (r: u64)
    ensures
        exact_double(r, v),
        r == double_bits(v),
        fixed_of_bits(r) == Some(v),
{
    if v == 0 {
        assert((0u64 >> 63u64) == 0 && (0u64 >> 52u64) & 0x7ffu64 == 0) by (bit_vector);
        proof {
            assert(exact_double(0u64, v));
            lemma_exact_double_unique(0, double_bits(v), v);
        }
        return 0;
    }
    let w = v as u64;
    let mut p: u64 = 0;
    assert(w >> 0u64 == w) by (bit_vector);
    while p < 31 && (w >> (p + 1)) != 0
        invariant
            p <= 31,
            w >> p != 0,
            w == v,
            w < 0x1_0000_0000u64,
        decreases 31 - p,
    {
        p = p + 1;
    }
    assert(w >> p == 1) by (bit_vector)
        requires
            w >> p != 0,
            p <= 31,
            p == 31 || w >> ((p + 1) as u64) == 0,
            w < 0x1_0000_0000u64,
    ;
    let s: u64 = 52 - p;
    let bits = ((p + 1015) << 52u64) | ((w << s) & 0xf_ffff_ffff_ffffu64);
    proof {
        lemma_encoding_decodes(w, p);
        let e = (bits >> 52u64) & 0x7ffu64;
        assert((bits & 0xf_ffff_ffff_ffffu64) + (1u64 << 52u64) == w << s) by (bit_vector)
            requires
                bits == (((p + 1015) as u64) << 52u64) | ((w << s) & 0xf_ffff_ffff_ffffu64),
                w >> p == 1,
                s + p == 52,
                p <= 31,
        ;
        assert(w >> ((p + 1) as u64) == 0) by (bit_vector)
            requires
                w >> p == 1,
                p <= 31,
        ;
        lemma_u64_shr_is_div(w, (p + 1) as u64);
        lemma_pow2_pos((p + 1) as nat);
        assert(w < pow2((p + 1) as nat)) by (nonlinear_arith)
            requires
                w as nat / pow2((p + 1) as nat) == 0,
                pow2((p + 1) as nat) > 0,
        ;
        lemma_pow2_adds((p + 1) as nat, s as nat);
        lemma_pow2_pos(s as nat);
        assert(w * pow2(s as nat) < pow2((p + 1) as nat) * pow2(s as nat)) by (nonlinear_arith)
            requires
                w < pow2((p + 1) as nat),
                pow2(s as nat) > 0,
        ;
        lemma2_to64_rest();
        lemma_u64_shl_is_mul(w, s);
        lemma_u64_shl_is_mul(1, 52);
        assert(1067 - e == s);
        assert(bits >> 63u64 == 0);
        assert(0 < e < 1067);
        assert(pow2(52) == 1u64 << 52u64);
        assert((bits & fraction_mask()) + pow2(52) == v * pow2((1067 - e) as nat));
        assert(exact_double(bits, v));
        lemma_exact_double_unique(bits, double_bits(v), v);
        let f = bits & fraction_mask();
        assert((pow2(52) + f) as int / (pow2(s as nat) as int) == v) by (nonlinear_arith)
            requires
                f + pow2(52) == v * pow2(s as nat),
                pow2(s as nat) > 0,
        ;
        assert(e < 1067 && e != 0x7ff);
    }
    bits
}

/// The records of a point: each coordinate as the double equal to it.
pub open spec fn stored_of(p: Point) -> StoredPoint {
    StoredPoint { x_bits: double_bits(p.x), y_bits: double_bits(p.y) }
}

/// The cache words of a point: each coordinate as the bits of its double.
pub fn to_stored(p: &Point) -> (r: StoredPoint)
    ensures
        r == stored_of(*p),
        fixed_of_bits(r.x_bits) == Some(p.x),
        fixed_of_bits(r.y_bits) == Some(p.y),
{
    StoredPoint { x_bits: bits_of_coordinate(p.x), y_bits: bits_of_coordinate(p.y) }
}

/// The point that cache words hold, if both coordinates are representable.
pub fn from_stored(s: &StoredPoint) -> (r: Option<Point>)
    ensures
        r == match (fixed_of_bits(s.x_bits), fixed_of_bits(s.y_bits)) {
            (Some(x), Some(y)) => Some(Point { x, y }),
            _ => None,
        },
{
    match (coordinate_of_bits(s.x_bits), coordinate_of_bits(s.y_bits)) {
        (Some(x), Some(y)) => Some(Point { x, y }),
        _ => None,
    }
}

/// The point that a record holds, if both coordinates are representable.
pub open spec fn record_point(s: StoredPoint) -> Option<Point> {
    match (fixed_of_bits(s.x_bits), fixed_of_bits(s.y_bits)) {
        (Some(x), Some(y)) => Some(Point { x, y }),
        _ => None,
    }
}

/// The points that records hold, in order; `None` if any record holds none.
pub open spec fn points_of_records(rs: Seq<StoredPoint>) -> Option<Seq<Point>> {
    if forall|i: int| 0 <= i < rs.len() ==> (#[trigger] record_point(rs[i])) is Some {
        Some(
            Seq::new(
                rs.len(),
                |i: int|
                    match record_point(rs[i]) {
                        Some(p) => p,
                        None => Point { x: 0, y: 0 },
                    },
            ),
        )
    } else {
        None
    }
}

/// The cache bytes of `points`. Loading them gives the same points back.
pub fn anchor_points_to_cache(points: &Vec<Point>) -> (r: Vec<u8>)
    ensures
        r@ == encode_spec(points@.map_values(|p: Point| stored_of(p))),
        r@.len() == 16 * points@.len(),
        points_of_records(decode_spec(r@)) == Some(points@),
{
    let mut records: Vec<StoredPoint> = Vec::with_capacity(points.len());
    let mut i: usize = 0;
    while i < points.len()
        invariant
            i <= points@.len(),
            records@.len() == i,
            forall|k: int| 0 <= k < i ==> #[trigger] record_point(records@[k]) == Some(points@[k]),
            forall|k: int| 0 <= k < i ==> #[trigger] records@[k] == stored_of(points@[k]),
        decreases points@.len() - i,
    {
        let record = to_stored(&points[i]);
        records.push(record);
        i = i + 1;
    }
    let bytes = encode_anchor_cache(&records);
    assert(records@ =~= points@.map_values(|p: Point| stored_of(p)));
    proof {
        lemma_cache_round_trip(records@);
        lemma_encode_len(records@);
        let d = decode_spec(bytes@);
        assert(d == records@);
        assert forall|k: int| 0 <= k < d.len() implies (#[trigger] record_point(d[k])) is Some by {
            assert(record_point(d[k]) == Some(points@[k]));
        }
        let ps = points_of_records(d)->0;
        assert(ps =~= points@) by {
            assert forall|k: int| 0 <= k < ps.len() implies ps[k] == points@[k] by {
                assert(record_point(d[k]) == Some(points@[k]));
            }
        }
    }
    bytes
}

proof fn lemma_encode_len(rs: Seq<StoredPoint>)
    ensures
        encode_spec(rs).len() == 16 * rs.len(),
    decreases rs.len(),
{
    if rs.len() > 0 {
        lemma_encode_len(rs.drop_last());
    }
}

/// The points held by cache bytes, whole records only; `None` when a record
/// holds a coordinate that no point can have.
pub fn anchor_points_from_cache(bytes: &[u8]) -> (r: Option<Vec<Point>>)
    ensures
        match r {
            Some(v) => points_of_records(decode_spec(bytes@)) == Some(v@),
            None => points_of_records(decode_spec(bytes@)) is None,
        },
{
    let records = decode_anchor_cache(bytes);
    let mut points: Vec<Point> = Vec::with_capacity(records.len());
    let mut i: usize = 0;
    while i < records.len()
        invariant
            i <= records@.len(),
            records@ == decode_spec(bytes@),
            points@.len() == i,
            forall|k: int| 0 <= k < i ==> #[trigger] record_point(records@[k]) == Some(points@[k]),
        decreases records@.len() - i,
    {
        match from_stored(&records[i]) {
            Some(p) => {
                points.push(p);
            },
            None => {
                assert(record_point(records@[i as int]) is None);
                return None;
            },
        }
        i = i + 1;
    }
    proof {
        let ps = points_of_records(records@)->0;
        assert(ps =~= points@) by {
            assert forall|k: int| 0 <= k < ps.len() implies ps[k] == points@[k] by {
                assert(record_point(records@[k]) == Some(points@[k]));
            }
        }
    }
    Some(points)
}

} // verus!
