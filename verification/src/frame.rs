//! Bit-sliced layout of a frame of stored values.
//!
//! A frame of `n` stored 16-bit values is rearranged into `2n` bytes made of
//! six slices, so that bits that vary slowly end up next to each other and
//! compress well:
//!
//! | slice | bits of each value | bits per value | start (bytes) |
//! |-------|--------------------|----------------|---------------|
//! | 0 | bit 0 | 1 | `0` |
//! | 1 | bit 1 | 1 | `n/8` |
//! | 2 | bit 2 | 1 | `2(n/8)` |
//! | 3 | bits 3-6 | 4 | `3(n/8)` |
//! | 4 | bits 7-10 | 4 | `3(n/8) + n/2` |
//! | 5 | bits 11-15 | 5 | `3(n/8) + 2(n/2)` |
//!
//! Within a slice, the bits of value `i` occupy positions `i*w .. i*w + w`,
//! where `w` is the number of bits per value, and bit `k` of the slice is bit
//! `k % 8` of byte `k / 8`.

use vstd::prelude::*;
use crate::stored::MaybeDtcOutcome;

verus! {

/// Start (in bytes) of the slice holding bit `j` of each value.
pub open spec fn slice_start(n: int, j: int) -> int {
    if j == 0 {
        0
    } else if j == 1 {
        n / 8
    } else if j == 2 {
        (n / 8) * 2
    } else if j < 7 {
        (n / 8) * 3
    } else if j < 11 {
        (n / 8) * 3 + n / 2
    } else {
        (n / 8) * 3 + n / 2 + n / 2
    }
}

/// Position of bit `j` of value `i` inside its slice.
pub open spec fn slice_offset(i: int, j: int) -> int {
    if j < 3 {
        i
    } else if j < 7 {
        i * 4 + (j - 3)
    } else if j < 11 {
        i * 4 + (j - 7)
    } else {
        i * 5 + (j - 11)
    }
}

/// Absolute bit position (in the frame bytes) of bit `j` of value `i`.
pub open spec fn bit_position(n: int, i: int, j: int) -> int {
    slice_start(n, j) * 8 + slice_offset(i, j)
}

/// Bit `p` of a byte sequence (bit `p % 8` of byte `p / 8`).
pub open spec fn byte_bit(bytes: Seq<u8>, p: int) -> bool {
    (bytes[p / 8] >> ((p % 8) as u8)) & 1u8 == 1u8
}

/// Bit `j` of a 16-bit value.
pub open spec fn value_bit(v: u16, j: int) -> bool {
    (v >> (j as u16)) & 1u16 == 1u16
}

/// Number of bytes a frame of `n` values is read from.
pub open spec fn frame_bytes_needed(n: int) -> int {
    if n == 0 {
        0
    } else {
        slice_start(n, 15) + (slice_offset(n - 1, 15)) / 8 + 1
    }
}

/// `t` is the bit-sliced form of `vals`: it has two bytes per value and each of
/// its bits is set exactly when some value has a set bit that is laid out there.
pub open spec fn is_transposed(vals: Seq<MaybeDtcOutcome>, t: Seq<u8>) -> bool {
    let n = vals.len() as int;
    &&& t.len() == 2 * n
    &&& forall|p: int|
        0 <= p < 16 * n ==> #[trigger] byte_bit(t, p) == exists|i: int, j: int|
            0 <= i < n && 0 <= j < 16 && bit_position(n, i, j) == p && #[trigger] value_bit(
                vals[i].0,
                j,
            )
}

/// `vals` holds `n` values, each bit of which is read from the bit where the
/// layout puts it in `t`.
pub open spec fn is_detransposed(t: Seq<u8>, n: int, vals: Seq<MaybeDtcOutcome>) -> bool {
    &&& vals.len() == n
    &&& forall|i: int, j: int|
        0 <= i < n && 0 <= j < 16 ==> #[trigger] value_bit(vals[i].0, j) == byte_bit(
            t,
            bit_position(n, i, j),
        )
}

proof fn lemma_or_bit(x: u8, r: u8, s: u8)
    requires
        r < 8,
        s < 8,
    ensures
        ((x | (1u8 << r)) >> s) & 1u8 == 1u8 <==> ((x >> s) & 1u8 == 1u8 || s == r),
{
    assert(((x | (1u8 << r)) >> s) & 1u8 == 1u8 <==> ((x >> s) & 1u8 == 1u8 || s == r))
        by (bit_vector)
        requires
            r < 8,
            s < 8,
    ;
}

/// Sets bit `bit` of byte `byte` when `on` holds.
fn set_bit(out: &mut Vec<u8>, byte: usize, bit: u8, on: bool)
    requires
        byte < old(out).len(),
        bit < 8,
    ensures
        final(out).len() == old(out).len(),
        forall|q: int|
            0 <= q < 8 * old(out).len() ==> #[trigger] byte_bit(final(out)@, q) == (byte_bit(
                old(out)@,
                q,
            ) || (on && q == byte * 8 + bit)),
{
    if on {
        let ghost before = out@;
        let v = out[byte];
        out.set(byte, v | (1u8 << bit));
        assert forall|q: int| 0 <= q < 8 * before.len() implies #[trigger] byte_bit(out@, q) == (
        byte_bit(before, q) || q == byte * 8 + bit) by {
            if q / 8 == byte {
                lemma_or_bit(v, bit, (q % 8) as u8);
            }
        }
    }
}

/// Reads bit `bit` of byte `byte`.
fn get_bit(bytes: &[u8], byte: usize, bit: u8) -> (r: u16)
    requires
        byte < bytes.len(),
        bit < 8,
    ensures
        r == 0 || r == 1,
        r == 1 <==> byte_bit(bytes@, byte * 8 + bit),
{
    let b = bytes[byte];
    assert((b >> bit) & 1u8 == 0u8 || (b >> bit) & 1u8 == 1u8) by (bit_vector);
    assert((byte * 8 + bit) / 8 == byte && (byte * 8 + bit) % 8 == bit);
    ((b >> bit) & 1) as u16
}

/// The layout coordinates `(byte, bit)` of bit `j` of value `i` in a frame of `n` values.
fn layout(n: usize, i: usize, j: usize) -> (r: (usize, u8))
    requires
        i < n,
        j < 16,
        n <= usize::MAX / 8,
    ensures
        r.1 < 8,
        r.0 * 8 + r.1 == bit_position(n as int, i as int, j as int),
        r.0 < frame_bytes_needed(n as int),
{
    let eighth = n / 8;
    let half = n / 2;
    let (start, k): (usize, usize) = if j == 0 {
        (0, i)
    } else if j == 1 {
        (eighth, i)
    } else if j == 2 {
        (eighth * 2, i)
    } else if j < 7 {
        (eighth * 3, i * 4 + (j - 3))
    } else if j < 11 {
        (eighth * 3 + half, i * 4 + (j - 7))
    } else {
        (eighth * 3 + half + half, i * 5 + (j - 11))
    };
    assert(k / 8 <= (slice_offset(n - 1, 15)) / 8) by {
        assert(k <= (n - 1) * 5 + 4);
    }
    (start + k / 8, (k % 8) as u8)
}

pub proof fn lemma_needed_le(n: int)
    requires
        n >= 0,
    ensures
        frame_bytes_needed(n) <= 2 * n,
{
}

/// Transposes (bit-slices) a frame of stored values to make it compress well.
pub fn transpose_frame(uncompressed: &[MaybeDtcOutcome]) -> (r: Vec<u8>)
    requires
        uncompressed.len() <= usize::MAX / 8,
    ensures
        is_transposed(uncompressed@, r@),
{
    let n = uncompressed.len();
    let mut output: Vec<u8> = vec![0u8; n * 2];
    let ghost vals = uncompressed@;
    assert forall|p: int| 0 <= p < 16 * n implies !#[trigger] byte_bit(output@, p) by {
        assert(output@[p / 8] == 0u8);
        let s = (p % 8) as u8;
        assert((0u8 >> s) & 1u8 == 0u8) by (bit_vector);
    }
    let mut i: usize = 0;
    while i < n
        invariant
            0 <= i <= n,
            n == vals.len(),
            vals == uncompressed@,
            n <= usize::MAX / 8,
            output.len() == 2 * n,
            forall|p: int|
                0 <= p < 16 * n ==> #[trigger] byte_bit(output@, p) == exists|i2: int, j2: int|
                    0 <= i2 < i && 0 <= j2 < 16 && bit_position(n as int, i2, j2) == p
                        && #[trigger] value_bit(vals[i2].0, j2),
        decreases n - i,
    {
        let val = uncompressed[i].0;
        let mut j: usize = 0;
        while j < 16
            invariant
                0 <= i < n,
                0 <= j <= 16,
                n == vals.len(),
                val == vals[i as int].0,
                n <= usize::MAX / 8,
                output.len() == 2 * n,
                forall|p: int|
                    0 <= p < 16 * n ==> #[trigger] byte_bit(output@, p) == exists|i2: int, j2: int|
                        ((0 <= i2 < i && 0 <= j2 < 16) || (i2 == i && 0 <= j2 < j))
                            && bit_position(n as int, i2, j2) == p && #[trigger] value_bit(
                            vals[i2].0,
                            j2,
                        ),
            decreases 16 - j,
        {
            let (byte, bit) = layout(n, i, j);
            proof {
                lemma_needed_le(n as int);
            }
            let on = (val >> (j as u16)) & 1 == 1;
            let ghost before = output@;
            set_bit(&mut output, byte, bit, on);
            assert forall|p: int| 0 <= p < 16 * n implies #[trigger] byte_bit(output@, p)
                == exists|i2: int, j2: int|
                ((0 <= i2 < i && 0 <= j2 < 16) || (i2 == i && 0 <= j2 < j + 1)) && bit_position(
                    n as int,
                    i2,
                    j2,
                ) == p && #[trigger] value_bit(vals[i2].0, j2) by {
                if on && p == byte * 8 + bit {
                    assert(value_bit(vals[i as int].0, j as int));
                }
                if exists|i2: int, j2: int|
                    ((0 <= i2 < i && 0 <= j2 < 16) || (i2 == i && 0 <= j2 < j + 1))
                        && bit_position(n as int, i2, j2) == p && #[trigger] value_bit(
                        vals[i2].0,
                        j2,
                    ) {
                    let (i2, j2) = choose|i2: int, j2: int|
                        ((0 <= i2 < i && 0 <= j2 < 16) || (i2 == i && 0 <= j2 < j + 1))
                            && bit_position(n as int, i2, j2) == p && #[trigger] value_bit(
                            vals[i2].0,
                            j2,
                        );
                    if !(i2 == i && j2 == j) {
                        assert(byte_bit(before, p));
                    }
                }
            }
            j += 1;
        }
        i += 1;
    }
    output
}

proof fn lemma_accumulate_bit(val: u16, b: u16, j: u16)
    requires
        j < 16,
        b == 0 || b == 1,
        forall|k: u16| j <= k < 16 ==> (val >> k) & 1u16 == 0u16,
    ensures
        ((val | (b << j)) >> j) & 1u16 == b,
        forall|k: u16| k < j ==> ((val | (b << j)) >> k) & 1u16 == (val >> k) & 1u16,
        forall|k: u16| j < k < 16 ==> ((val | (b << j)) >> k) & 1u16 == 0u16,
{
    assert(((val | (b << j)) >> j) & 1u16 == b) by (bit_vector)
        requires
            j < 16,
            b == 0 || b == 1,
            (val >> j) & 1u16 == 0u16,
    ;
    assert forall|k: u16| k < j implies ((val | (b << j)) >> k) & 1u16 == (val >> k) & 1u16 by {
        assert(((val | (b << j)) >> k) & 1u16 == (val >> k) & 1u16) by (bit_vector)
            requires
                k < j,
                j < 16,
                b == 0 || b == 1,
        ;
    }
    assert forall|k: u16| j < k < 16 implies ((val | (b << j)) >> k) & 1u16 == 0u16 by {
        assert(((val | (b << j)) >> k) & 1u16 == 0u16) by (bit_vector)
            requires
                j < k < 16,
                b == 0 || b == 1,
                (val >> k) & 1u16 == 0u16,
        ;
    }
}

/// Reverses the bit-slicing of a frame of `frame_size` values.
pub fn detranspose_frame(transposed: &[u8], frame_size: usize) -> (r: Vec<MaybeDtcOutcome>)
    requires
        frame_size <= usize::MAX / 8,
        transposed.len() >= frame_bytes_needed(frame_size as int) || transposed.len() >= 2 * frame_size,
    ensures
        is_detransposed(transposed@, frame_size as int, r@),
        r@.len() == frame_size,
{
    proof {
        lemma_needed_le(frame_size as int);
    }
    let n = frame_size;
    let mut output: Vec<MaybeDtcOutcome> = Vec::new();
    let mut i: usize = 0;
    while i < n
        invariant
            0 <= i <= n,
            n == frame_size,
            n <= usize::MAX / 8,
            transposed.len() >= frame_bytes_needed(n as int),
            output.len() == i,
            forall|i2: int, j: int|
                0 <= i2 < i && 0 <= j < 16 ==> #[trigger] value_bit(output@[i2].0, j) == byte_bit(
                    transposed@,
                    bit_position(n as int, i2, j),
                ),
        decreases n - i,
    {
        let mut val: u16 = 0;
        assert forall|k: u16| 0 <= k < 16 implies (val >> k) & 1u16 == 0u16 by {
            assert((0u16 >> k) & 1u16 == 0u16) by (bit_vector);
        }
        let mut j: u16 = 0;
        while j < 16
            invariant
                0 <= i < n,
                0 <= j <= 16,
                n <= usize::MAX / 8,
                transposed.len() >= frame_bytes_needed(n as int),
                forall|k: u16| j <= k < 16 ==> (val >> k) & 1u16 == 0u16,
                forall|k: u16|
                    k < j ==> ((val >> k) & 1u16 == 1u16) == byte_bit(
                        transposed@,
                        bit_position(n as int, i as int, k as int),
                    ),
            decreases 16 - j,
        {
            let (byte, bit) = layout(n, i, j as usize);
            let b = get_bit(transposed, byte, bit);
            proof {
                lemma_accumulate_bit(val, b, j);
            }
            val = val | (b << j);
            j += 1;
        }
        let ghost before = output@;
        output.push(MaybeDtcOutcome(val));
        assert forall|i2: int, j2: int| 0 <= i2 < i + 1 && 0 <= j2 < 16 implies #[trigger] value_bit(
            output@[i2].0,
            j2,
        ) == byte_bit(transposed@, bit_position(n as int, i2, j2)) by {
            if i2 < i {
                assert(output@[i2] == before[i2]);
            } else {
                assert(value_bit(val, j2) == ((val >> (j2 as u16)) & 1u16 == 1u16));
            }
        }
        i += 1;
    }
    output
}

proof fn lemma_bits_determine_value(a: u16, b: u16)
    requires
        forall|j: int| 0 <= j < 16 ==> value_bit(a, j) == value_bit(b, j),
    ensures
        a == b,
{
    assert(value_bit(a, 0) == value_bit(b, 0));
    assert(value_bit(a, 1) == value_bit(b, 1));
    assert(value_bit(a, 2) == value_bit(b, 2));
    assert(value_bit(a, 3) == value_bit(b, 3));
    assert(value_bit(a, 4) == value_bit(b, 4));
    assert(value_bit(a, 5) == value_bit(b, 5));
    assert(value_bit(a, 6) == value_bit(b, 6));
    assert(value_bit(a, 7) == value_bit(b, 7));
    assert(value_bit(a, 8) == value_bit(b, 8));
    assert(value_bit(a, 9) == value_bit(b, 9));
    assert(value_bit(a, 10) == value_bit(b, 10));
    assert(value_bit(a, 11) == value_bit(b, 11));
    assert(value_bit(a, 12) == value_bit(b, 12));
    assert(value_bit(a, 13) == value_bit(b, 13));
    assert(value_bit(a, 14) == value_bit(b, 14));
    assert(value_bit(a, 15) == value_bit(b, 15));
    assert(a == b) by (bit_vector)
        requires
            (a >> 0u16) & 1u16 == 1u16 <==> (b >> 0u16) & 1u16 == 1u16,
            (a >> 1u16) & 1u16 == 1u16 <==> (b >> 1u16) & 1u16 == 1u16,
            (a >> 2u16) & 1u16 == 1u16 <==> (b >> 2u16) & 1u16 == 1u16,
            (a >> 3u16) & 1u16 == 1u16 <==> (b >> 3u16) & 1u16 == 1u16,
            (a >> 4u16) & 1u16 == 1u16 <==> (b >> 4u16) & 1u16 == 1u16,
            (a >> 5u16) & 1u16 == 1u16 <==> (b >> 5u16) & 1u16 == 1u16,
            (a >> 6u16) & 1u16 == 1u16 <==> (b >> 6u16) & 1u16 == 1u16,
            (a >> 7u16) & 1u16 == 1u16 <==> (b >> 7u16) & 1u16 == 1u16,
            (a >> 8u16) & 1u16 == 1u16 <==> (b >> 8u16) & 1u16 == 1u16,
            (a >> 9u16) & 1u16 == 1u16 <==> (b >> 9u16) & 1u16 == 1u16,
            (a >> 10u16) & 1u16 == 1u16 <==> (b >> 10u16) & 1u16 == 1u16,
            (a >> 11u16) & 1u16 == 1u16 <==> (b >> 11u16) & 1u16 == 1u16,
            (a >> 12u16) & 1u16 == 1u16 <==> (b >> 12u16) & 1u16 == 1u16,
            (a >> 13u16) & 1u16 == 1u16 <==> (b >> 13u16) & 1u16 == 1u16,
            (a >> 14u16) & 1u16 == 1u16 <==> (b >> 14u16) & 1u16 == 1u16,
            (a >> 15u16) & 1u16 == 1u16 <==> (b >> 15u16) & 1u16 == 1u16,
    ;
}

/// When the frame size is a multiple of 8, the slices do not overlap: distinct
/// bits of distinct values are laid out at distinct positions, all inside the frame.
proof fn lemma_layout_injective(n: int, i1: int, j1: int, i2: int, j2: int)
    requires
        n >= 0,
        n % 8 == 0,
        0 <= i1 < n,
        0 <= i2 < n,
        0 <= j1 < 16,
        0 <= j2 < 16,
        bit_position(n, i1, j1) == bit_position(n, i2, j2),
    ensures
        i1 == i2 && j1 == j2,
{
}

proof fn lemma_layout_in_frame(n: int, i: int, j: int)
    requires
        n >= 0,
        n % 8 == 0,
        0 <= i < n,
        0 <= j < 16,
    ensures
        0 <= bit_position(n, i, j) < 16 * n,
{
}

/// Bit-slicing a frame whose size is a multiple of 8 and reading it back gives
/// the frame unchanged.
pub proof fn lemma_frame_round_trip(vals: Seq<MaybeDtcOutcome>, t: Seq<u8>, back: Seq<MaybeDtcOutcome>)
    requires
        vals.len() % 8 == 0,
        is_transposed(vals, t),
        is_detransposed(t, vals.len() as int, back),
    ensures
        back == vals,
{
    let n = vals.len() as int;
    assert forall|i: int| 0 <= i < n implies back[i] == vals[i] by {
        assert forall|j: int| 0 <= j < 16 implies value_bit(back[i].0, j) == value_bit(vals[i].0, j) by {
            let p = bit_position(n, i, j);
            lemma_layout_in_frame(n, i, j);
            assert(value_bit(back[i].0, j) == byte_bit(t, p));
            if byte_bit(t, p) {
                let (i2, j2) = choose|i2: int, j2: int|
                    0 <= i2 < n && 0 <= j2 < 16 && bit_position(n, i2, j2) == p && #[trigger] value_bit(
                        vals[i2].0,
                        j2,
                    );
                lemma_layout_injective(n, i, j, i2, j2);
            } else {
                if value_bit(vals[i].0, j) {
                    assert(exists|i2: int, j2: int|
                        0 <= i2 < n && 0 <= j2 < 16 && bit_position(n, i2, j2) == p && #[trigger] value_bit(
                            vals[i2].0,
                            j2,
                        ));
                }
            }
        }
        lemma_bits_determine_value(back[i].0, vals[i].0);
    }
    assert(back =~= vals);
}

} // verus!
