//! Unsigned LEB128 decoding.

use vstd::prelude::*;

use crate::error::{Result, UnocRsError};

verus! {

/// A decoded unsigned LEB128 value and the number of bytes it occupied.
#[derive(Debug, Clone, Copy, PartialEq, Eq)]
pub struct Leb128 {
    pub value: u32,
    pub bytes_read: usize,
}

/// `128` to the power `n`.
pub open spec fn pow128(n: nat) -> nat
    decreases n,
{
    if n == 0 {
        1
    } else {
        128 * pow128((n - 1) as nat)
    }
}

/// The sum of the 7-bit payloads of the `n` bytes at `off`, the first one least significant.
pub open spec fn leb_payload(bytes: Seq<u8>, off: int, n: nat) -> nat
    decreases n,
{
    if n == 0 {
        0
    } else {
        leb_payload(bytes, off, (n - 1) as nat) + (bytes[off + n - 1] % 128) as nat * pow128((n - 1) as nat)
    }
}

/// The bytes `off .. off + n` all exist and carry the continuation bit.
pub open spec fn continued(bytes: Seq<u8>, off: int, n: nat) -> bool {
    forall|i: int| 0 <= i < n ==> off + i < bytes.len() && #[trigger] bytes[off + i] >= 128
}

/// The encoding at `off` ends after `n` bytes: the first `n - 1` carry the continuation bit and
/// byte `n - 1` does not.
pub open spec fn terminates_after(bytes: Seq<u8>, off: int, n: nat) -> bool {
    &&& 1 <= n
    &&& continued(bytes, off, (n - 1) as nat)
    &&& off + n - 1 < bytes.len()
    &&& bytes[off + n - 1] < 128
}

/// The value an encoding of `n` bytes at `off` decodes to: the payload, reduced to 32 bits.
pub open spec fn leb_value(bytes: Seq<u8>, off: int, n: nat) -> u32 {
    (leb_payload(bytes, off, n) % 4294967296) as u32
}

/// Decoding from byte `k` of the encoding at `off` on, with `acc` the payload of the bytes
/// before it.
pub open spec fn leb_from(bytes: Seq<u8>, off: usize, k: nat, acc: nat) -> Result<Leb128>
    decreases 5 - k,
{
    if k >= 5 {
        Err(UnocRsError::InvalidLeb128 { offset: off })
    } else if off + k >= bytes.len() {
        Err(UnocRsError::UnexpectedEof { offset: (off + k) as usize, needed: 1, len: bytes.len() as usize })
    } else {
        let b = bytes[off + k];
        let acc2 = acc + (b % 128) as nat * pow128(k);
        if b < 128 {
            Ok(Leb128 { value: (acc2 % 4294967296) as u32, bytes_read: (k + 1) as usize })
        } else {
            leb_from(bytes, off, k + 1, acc2)
        }
    }
}

/// The result of decoding the unsigned LEB128 value at `off`.
pub open spec fn leb_at(bytes: Seq<u8>, off: usize) -> Result<Leb128> {
    leb_from(bytes, off, 0, 0)
}

/// Reads the unsigned LEB128 value at `offset`. At most five bytes are read: an encoding whose
/// first five bytes all carry the continuation bit is rejected, and one that runs past the end
/// of the buffer fails at the first missing byte.
pub fn read_uleb128(bytes: &[u8], offset: usize) -> (r: Result<Leb128>)
    ensures
        match r {
            Ok(v) => 1 <= v.bytes_read <= 5 && terminates_after(bytes@, offset as int, v.bytes_read as nat)
                && v.value == leb_value(bytes@, offset as int, v.bytes_read as nat),
            Err(e) => continued(bytes@, offset as int, 5) && e == (UnocRsError::InvalidLeb128 { offset })
                || exists|k: nat| k < 5 && continued(bytes@, offset as int, k) && offset + k >= bytes@.len()
                && e == (UnocRsError::UnexpectedEof { offset: (offset + k) as usize, needed: 1, len: bytes@.len() as usize }),
        },
        (exists|n: nat| n <= 5 && #[trigger] terminates_after(bytes@, offset as int, n)) ==> r is Ok,
        r == leb_at(bytes@, offset),
{
    let mut acc: u64 = 0;
    let mut mult: u64 = 1;
    let mut index: usize = 0;
    while index < 5
        invariant
            index <= 5,
            index > 0 ==> offset + index <= bytes@.len(),
            continued(bytes@, offset as int, index as nat),
            acc == leb_payload(bytes@, offset as int, index as nat),
            index < 5 ==> mult == pow128(index as nat),
            acc < pow128(index as nat),
            leb_at(bytes@, offset) == leb_from(bytes@, offset, index as nat, acc as nat),
        decreases 5 - index,
    {
        if offset >= bytes.len() || index >= bytes.len() - offset {
            proof {
                if exists|n: nat| n <= 5 && #[trigger] terminates_after(bytes@, offset as int, n) {
                    let n = choose|n: nat| n <= 5 && #[trigger] terminates_after(bytes@, offset as int, n);
                    if n - 1 < index {
                        assert(bytes@[offset as int + (n - 1)] >= 128);
                    }
                }
            }
            let at = if index == 0 { offset } else { bytes.len() };
            return Err(UnocRsError::UnexpectedEof { offset: at, needed: 1, len: bytes.len() });
        }
        let byte = bytes[offset + index];
        proof {
            assert(pow128(index as nat) <= pow128(4)) by {
                reveal_with_fuel(pow128, 5);
            }
            assert(pow128(4) == 268435456) by {
                reveal_with_fuel(pow128, 5);
            }
            assert((byte % 128) as nat * mult <= 127 * 268435456) by (nonlinear_arith)
                requires mult <= 268435456, (byte % 128) < 128;
        }
        acc = acc + ((byte % 128) as u64) * mult;
        proof {
            assert((byte % 128) as nat * mult + acc - (byte % 128) as nat * mult < 128 * mult) by (nonlinear_arith)
                requires acc - (byte % 128) as nat * mult < mult, byte % 128 < 128;
        }
        if byte < 128 {
            let v: u32 = (acc % 4294967296) as u32;
            return Ok(Leb128 { value: v, bytes_read: index + 1 });
        }
        if index < 4 {
            mult = mult * 128;
        }
        index = index + 1;
        proof {
            assert(continued(bytes@, offset as int, index as nat)) by {
                assert forall|i: int| 0 <= i < index implies offset + i < bytes@.len() && #[trigger] bytes@[offset + i] >= 128 by {
                    if i < index - 1 {
                        assert(continued(bytes@, offset as int, (index - 1) as nat));
                    }
                }
            }
            if index < 5 {
                assert(mult == pow128(index as nat));
            }
        }
    }
    proof {
        if exists|n: nat| n <= 5 && #[trigger] terminates_after(bytes@, offset as int, n) {
            let n = choose|n: nat| n <= 5 && #[trigger] terminates_after(bytes@, offset as int, n);
            assert(bytes@[offset as int + (n - 1)] >= 128);
        }
    }
    Err(UnocRsError::InvalidLeb128 { offset })
}

/// The shortest unsigned LEB128 encoding of `v`: seven bits per byte, the least significant
/// group first, the continuation bit set on every byte but the last.
pub open spec fn uleb128_encoding(v: nat) -> Seq<u8>
    decreases v,
{
    if v < 128 {
        seq![v as u8]
    } else {
        seq![(v % 128 + 128) as u8] + uleb128_encoding(v / 128)
    }
}

/// A value below `128` to the power `n` takes at most `n` bytes.
proof fn lemma_encoding_len(v: nat, n: nat)
    requires
        1 <= n,
        v < pow128(n),
    ensures
        1 <= uleb128_encoding(v).len() <= n,
    decreases v,
{
    if v >= 128 {
        if n == 1 {
            assert(pow128(1) == 128) by {
                reveal_with_fuel(pow128, 2);
            }
        } else {
            let m = (n - 1) as nat;
            assert(v / 128 < pow128(m)) by (nonlinear_arith)
                requires v < 128 * pow128(m);
            lemma_encoding_len(v / 128, m);
        }
    }
}

/// Decoding from byte `k` of an encoding whose remaining bytes are the shortest encoding of
/// `w`, with `acc` the payload of the bytes before.
proof fn lemma_decode_encoding(bytes: Seq<u8>, off: usize, k: nat, acc: nat, w: nat)
    requires
        k + uleb128_encoding(w).len() <= 5,
        off + k + uleb128_encoding(w).len() <= bytes.len(),
        bytes.subrange(off + k, off + k + uleb128_encoding(w).len()) == uleb128_encoding(w),
        acc + w * pow128(k) < 4294967296,
    ensures
        leb_from(bytes, off, k, acc) == Ok::<Leb128, UnocRsError>(Leb128 {
            value: (acc + w * pow128(k)) as u32,
            bytes_read: (k + uleb128_encoding(w).len()) as usize,
        }),
    decreases w,
{
    let e = uleb128_encoding(w);
    assert(bytes[off + k] == e[0]);
    if w < 128 {
        assert(e[0] == w as u8);
        assert((w as u8) % 128 == w);
    } else {
        let b = (w % 128 + 128) as u8;
        assert(e[0] == b);
        assert(b % 128 == w % 128);
        let rest = uleb128_encoding(w / 128);
        assert(e =~= seq![b] + rest);
        assert(bytes.subrange(off + k + 1, off + k + 1 + rest.len()) =~= rest) by {
            assert forall|i: int| 0 <= i < rest.len() implies bytes[off + k + 1 + i] == rest[i] by {
                assert(bytes.subrange(off + k, off + k + e.len())[i + 1] == e[i + 1]);
            }
        }
        let acc2 = acc + (w % 128) * pow128(k);
        assert(pow128(k + 1) == 128 * pow128(k));
        assert(acc2 + (w / 128) * pow128(k + 1) == acc + w * pow128(k)) by (nonlinear_arith)
            requires acc2 == acc + (w % 128) * pow128(k), pow128(k + 1) == 128 * pow128(k), w == 128 * (w / 128)
                + w % 128;
        lemma_decode_encoding(bytes, off, k + 1, acc2, w / 128);
    }
}

/// The shortest encoding of any `u32`, wherever it stands in a buffer, reads back as that value
/// and its length.
pub proof fn lemma_read_uleb128_round_trip(p: Seq<u8>, v: u32, q: Seq<u8>)
    requires
        p.len() + uleb128_encoding(v as nat).len() + q.len() <= usize::MAX,
    ensures
        1 <= uleb128_encoding(v as nat).len() <= 5,
        leb_at(p + uleb128_encoding(v as nat) + q, p.len() as usize) == Ok::<Leb128, UnocRsError>(Leb128 {
            value: v,
            bytes_read: uleb128_encoding(v as nat).len() as usize,
        }),
{
    let e = uleb128_encoding(v as nat);
    let bytes = p + e + q;
    assert(pow128(5) == 34359738368) by {
        reveal_with_fuel(pow128, 6);
    }
    lemma_encoding_len(v as nat, 5);
    assert(bytes.subrange(p.len() as int, (p.len() + e.len()) as int) =~= e);
    assert(pow128(0) == 1);
    lemma_decode_encoding(bytes, p.len() as usize, 0, 0, v as nat);
}

} // verus!
