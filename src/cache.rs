use byteorder::{ByteOrder, LittleEndian};
use vstd::prelude::*;

verus! {

/// One cached point as its two stored 64-bit words, `x` then `y`: the bit
/// patterns of the coordinates as IEEE-754 doubles.
#[derive(Clone, Copy, Debug, PartialEq, Eq, Structural)]
pub struct StoredPoint {
    pub x_bits: u64,
    pub y_bits: u64,
}

/// Number of bytes that one point takes in the cache.
pub const RECORD_BYTES: usize = 16;

/// The eight bytes of `n`, least significant first.
pub open spec fn le_bytes(n: u64) -> Seq<u8> {
    seq![
        n as u8,
        (n >> 8u64) as u8,
        (n >> 16u64) as u8,
        (n >> 24u64) as u8,
        (n >> 32u64) as u8,
        (n >> 40u64) as u8,
        (n >> 48u64) as u8,
        (n >> 56u64) as u8,
    ]
}

/// The integer whose little-endian bytes start `b`.
pub open spec fn le_word(b: Seq<u8>) -> u64 {
    (b[0] as u64) | ((b[1] as u64) << 8u64) | ((b[2] as u64) << 16u64) | ((b[3] as u64) << 24u64)
        | ((b[4] as u64) << 32u64) | ((b[5] as u64) << 40u64) | ((b[6] as u64) << 48u64) | ((
    b[7] as u64) << 56u64)
}

/// The cache bytes of a sequence of points: for each, `x` then `y`.
pub open spec fn encode_spec(points: Seq<StoredPoint>) -> Seq<u8>
    decreases points.len(),
{
    if points.len() == 0 {
        Seq::empty()
    } else {
        let p = points.last();
        encode_spec(points.drop_last()) + le_bytes(p.x_bits) + le_bytes(p.y_bits)
    }
}

/// The points that cache bytes hold: one per whole 16-byte record; an
/// incomplete record at the end is dropped.
pub open spec fn decode_spec(bytes: Seq<u8>) -> Seq<StoredPoint> {
    Seq::new(
        (bytes.len() / 16) as nat,
        |i: int|
            StoredPoint {
                x_bits: le_word(bytes.subrange(16 * i, 16 * i + 8)),
                y_bits: le_word(bytes.subrange(16 * i + 8, 16 * i + 16)),
            },
    )
}

/// Relies on byteorder's `LittleEndian::read_u64`: the eight bytes it is
/// given read as a little-endian integer (it panics on fewer than eight).
#[verifier::external_body]
fn read_word(buf: &[u8], at: usize) -> (r: u64)
    requires
        at + 8 <= buf@.len(),
    ensures
        r == le_word(buf@.subrange(at as int, at + 8)),
{
    LittleEndian::read_u64(&buf[at..at + 8])
}

/// Relies on byteorder's `LittleEndian::write_u64`: it stores `n` in the
/// eight bytes it is given, least significant first.
#[verifier::external_body]
fn word_bytes(n: u64) -> (r: [u8; 8])
    ensures
        r@ == le_bytes(n),
{
    let mut buf = [0u8; 8];
    LittleEndian::write_u64(&mut buf, n);
    buf
}

proof fn lemma_word_round_trip(n: u64)
    ensures
        le_word(le_bytes(n)) == n,
{
    let b = le_bytes(n);
    assert(le_word(b) == ((n as u8) as u64) | (((n >> 8u64) as u8 as u64) << 8u64) | (((n
        >> 16u64) as u8 as u64) << 16u64) | (((n >> 24u64) as u8 as u64) << 24u64) | (((n
        >> 32u64) as u8 as u64) << 32u64) | (((n >> 40u64) as u8 as u64) << 40u64) | (((n
        >> 48u64) as u8 as u64) << 48u64) | (((n >> 56u64) as u8 as u64) << 56u64));
    assert(((n as u8) as u64) | (((n >> 8u64) as u8 as u64) << 8u64) | (((n >> 16u64) as u8
        as u64) << 16u64) | (((n >> 24u64) as u8 as u64) << 24u64) | (((n >> 32u64) as u8
        as u64) << 32u64) | (((n >> 40u64) as u8 as u64) << 40u64) | (((n >> 48u64) as u8
        as u64) << 48u64) | (((n >> 56u64) as u8 as u64) << 56u64) == n) by (bit_vector);
}

proof fn lemma_encode_layout(points: Seq<StoredPoint>)
    ensures
        encode_spec(points).len() == 16 * points.len(),
        forall|i: int|
            0 <= i < points.len() ==> encode_spec(points).subrange(16 * i, 16 * i + 8) == le_bytes(
                (#[trigger] points[i]).x_bits,
            ) && encode_spec(points).subrange(16 * i + 8, 16 * i + 16) == le_bytes(
                points[i].y_bits,
            ),
    decreases points.len(),
{
    if points.len() > 0 {
        let rest = points.drop_last();
        lemma_encode_layout(rest);
        let e = encode_spec(points);
        let n = rest.len() as int;
        assert forall|i: int| 0 <= i < points.len() implies e.subrange(16 * i, 16 * i + 8)
            == le_bytes((#[trigger] points[i]).x_bits) && e.subrange(16 * i + 8, 16 * i + 16)
            == le_bytes(points[i].y_bits) by {
            if i < n {
                assert(points[i] == rest[i]);
                assert(e.subrange(16 * i, 16 * i + 8) =~= encode_spec(rest).subrange(
                    16 * i,
                    16 * i + 8,
                ));
                assert(e.subrange(16 * i + 8, 16 * i + 16) =~= encode_spec(rest).subrange(
                    16 * i + 8,
                    16 * i + 16,
                ));
            } else {
                assert(e.subrange(16 * i, 16 * i + 8) =~= le_bytes(points[i].x_bits));
                assert(e.subrange(16 * i + 8, 16 * i + 16) =~= le_bytes(points[i].y_bits));
            }
        }
    }
}

/// Decoding keeps every whole record of the encoded points and drops an
/// incomplete record at the end: a truncated cache yields exactly the
/// points written before the cut.
pub proof fn lemma_cache_drops_partial_tail(points: Seq<StoredPoint>, tail: Seq<u8>)
    requires
        tail.len() < 16,
    ensures
        decode_spec(encode_spec(points) + tail) == points,
{
    lemma_encode_layout(points);
    let e = encode_spec(points);
    let b = e + tail;
    assert(b.len() / 16 == points.len()) by (nonlinear_arith)
        requires
            b.len() == 16 * points.len() + tail.len(),
            0 <= tail.len() < 16,
    ;
    let d = decode_spec(b);
    assert forall|i: int| 0 <= i < points.len() implies #[trigger] d[i] == points[i] by {
        assert(b.subrange(16 * i, 16 * i + 8) =~= e.subrange(16 * i, 16 * i + 8));
        assert(b.subrange(16 * i + 8, 16 * i + 16) =~= e.subrange(16 * i + 8, 16 * i + 16));
        lemma_word_round_trip(points[i].x_bits);
        lemma_word_round_trip(points[i].y_bits);
    }
    assert(d =~= points);
}

/// Loading what was saved restores the same points, bit for bit.
pub proof fn lemma_cache_round_trip(points: Seq<StoredPoint>)
    ensures
        decode_spec(encode_spec(points)) == points,
{
    lemma_cache_drops_partial_tail(points, Seq::empty());
    assert(encode_spec(points) + Seq::<u8>::empty() =~= encode_spec(points));
}

fn append_word(out: &mut Vec<u8>, n: u64)
    ensures
        final(out)@ == old(out)@ + le_bytes(n),
{
    let bytes = word_bytes(n);
    let mut j: usize = 0;
    while j < 8
        invariant
            j <= 8,
            bytes@ == le_bytes(n),
            out@ == old(out)@ + bytes@.take(j as int),
        decreases 8 - j,
    {
        out.push(bytes[j]);
        assert(bytes@.take(j + 1) =~= bytes@.take(j as int).push(bytes@[j as int]));
        j = j + 1;
    }
    assert(bytes@.take(8) =~= bytes@);
}

/// The cache bytes of `points`: for each point its `x` word then its `y`
/// word, little-endian, with no header, length or checksum.
pub fn encode_anchor_cache(points: &Vec<StoredPoint>) -> (r: Vec<u8>)
    ensures
        r@ == encode_spec(points@),
{
    let mut out: Vec<u8> = Vec::new();
    let mut i: usize = 0;
    while i < points.len()
        invariant
            i <= points@.len(),
            out@ == encode_spec(points@.take(i as int)),
        decreases points@.len() - i,
    {
        let p = points[i];
        assert(points@.take(i + 1).drop_last() =~= points@.take(i as int));
        append_word(&mut out, p.x_bits);
        append_word(&mut out, p.y_bits);
        i = i + 1;
    }
    assert(points@.take(i as int) =~= points@);
    out
}

/// The points held by cache bytes, in order. Reading stops at the first
/// incomplete record, which is dropped; no input is an error.
pub fn decode_anchor_cache(bytes: &[u8]) -> (r: Vec<StoredPoint>)
    ensures
        r@ == decode_spec(bytes@),
{
    let total = bytes.len();
    let n = total / RECORD_BYTES;
    let mut points: Vec<StoredPoint> = Vec::with_capacity(n);
    let mut i: usize = 0;
    while i < n
        invariant
            i <= n,
            n == bytes@.len() / 16,
            total == bytes@.len(),
            points@ == decode_spec(bytes@).take(i as int),
        decreases n - i,
    {
        assert(16 * i + 16 <= bytes@.len()) by (nonlinear_arith)
            requires
                i < n,
                n == bytes@.len() / 16,
        ;
        assert(16 * i + 16 <= total);
        let at: usize = 16 * i;
        let x_bits = read_word(bytes, at);
        let y_bits = read_word(bytes, at + 8);
        points.push(StoredPoint { x_bits, y_bits });
        assert(points@ =~= decode_spec(bytes@).take(i + 1));
        i = i + 1;
    }
    assert(points@ =~= decode_spec(bytes@));
    points
}

} // verus!
