//! Bounds-checked little-endian reads from a DEX buffer.

use vstd::prelude::*;
use vstd::utf8::{decode_utf8, valid_utf8};

use crate::chars::decode_strict;
use crate::error::{Result, UnocRsError};

verus! {

/// The little-endian 16-bit value stored at `off`.
pub open spec fn u16_at(bytes: Seq<u8>, off: int) -> u16 {
    (bytes[off] as int + 256 * bytes[off + 1] as int) as u16
}

/// The little-endian 32-bit value stored at `off`.
pub open spec fn u32_at(bytes: Seq<u8>, off: int) -> u32 {
    (bytes[off] as int + 256 * bytes[off + 1] as int + 65536 * bytes[off + 2] as int
        + 16777216 * bytes[off + 3] as int) as u32
}

/// `len` bytes starting at `off` lie inside `bytes`.
pub open spec fn in_bounds(bytes: Seq<u8>, off: int, len: int) -> bool {
    0 <= off && 0 <= len && off + len <= bytes.len()
}

/// The error a read of `len` bytes at `off` fails with when they do not lie inside the buffer.
pub open spec fn is_eof_error(e: UnocRsError, off: int, len: int, total: int) -> bool {
    e == (UnocRsError::UnexpectedEof {
        offset: off as usize,
        needed: len as usize,
        len: total as usize,
    })
}

/// The DEX magic: `"dex\n"`, three version bytes, then a zero byte.
pub open spec fn dex_magic_shape(bytes: Seq<u8>) -> bool {
    &&& bytes.len() >= 8
    &&& bytes[0] == 0x64u8
    &&& bytes[1] == 0x65u8
    &&& bytes[2] == 0x78u8
    &&& bytes[3] == 0x0au8
    &&& bytes[7] == 0u8
}

/// The version bytes this parser supports: `035`, `037`, `038`, `039` and `040`.
pub open spec fn supported_version(v: Seq<u8>) -> bool {
    ||| v == seq![0x30u8, 0x33u8, 0x35u8]
    ||| v == seq![0x30u8, 0x33u8, 0x37u8]
    ||| v == seq![0x30u8, 0x33u8, 0x38u8]
    ||| v == seq![0x30u8, 0x33u8, 0x39u8]
    ||| v == seq![0x30u8, 0x34u8, 0x30u8]
}

/// The three version bytes of a DEX header.
pub open spec fn version_bytes(bytes: Seq<u8>) -> Seq<u8> {
    bytes.subrange(4, 7)
}

/// Checks the DEX magic and returns the version text.
pub fn read_dex_version(bytes: &[u8]) -> (r: Result<String>)
    ensures
        bytes@.len() < 8 ==> (r matches Err(e) && is_eof_error(e, 0, 8, bytes@.len() as int)),
        bytes@.len() >= 8 ==> match r {
            Ok(v) => dex_magic_shape(bytes@) && supported_version(version_bytes(bytes@))
                && valid_utf8(version_bytes(bytes@)) && v@ == decode_utf8(version_bytes(bytes@)),
            Err(e) => if !dex_magic_shape(bytes@) || !valid_utf8(version_bytes(bytes@)) {
                e == UnocRsError::InvalidDexMagic
            } else {
                &&& !supported_version(version_bytes(bytes@))
                &&& e matches UnocRsError::UnsupportedDexVersion(v)
                &&& v@ == decode_utf8(version_bytes(bytes@))
            },
        },
{
    let magic = checked_slice(bytes, 0, 8)?;
    if magic[0] != 0x64 || magic[1] != 0x65 || magic[2] != 0x78 || magic[3] != 0x0a
        || magic[7] != 0 {
        return Err(UnocRsError::InvalidDexMagic);
    }
    let v = &magic[4..7];
    assert(v@ == version_bytes(bytes@));
    let version = match decode_strict(v) {
        Some(s) => s,
        None => return Err(UnocRsError::InvalidDexMagic),
    };
    let supported = v[0] == 0x30 && ((v[1] == 0x33 && (v[2] == 0x35 || v[2] == 0x37
        || v[2] == 0x38 || v[2] == 0x39)) || (v[1] == 0x34 && v[2] == 0x30));
    assert(v@ =~= seq![v@[0], v@[1], v@[2]]);
    if supported {
        Ok(version)
    } else {
        Err(UnocRsError::UnsupportedDexVersion(version))
    }
}

/// Reads the little-endian `u16` at `offset`.
pub fn read_u16(bytes: &[u8], offset: usize) -> (r: Result<u16>)
    ensures
        in_bounds(bytes@, offset as int, 2) ==> r == Ok::<u16, UnocRsError>(u16_at(bytes@, offset as int)),
        !in_bounds(bytes@, offset as int, 2) ==> (r matches Err(e) && is_eof_error(e, offset as int, 2, bytes@.len() as int)),
{
    let slice = checked_slice(bytes, offset, 2)?;
    let v: u16 = (slice[0] as u16) + 256 * (slice[1] as u16);
    Ok(v)
}

/// Reads the little-endian `u32` at `offset`.
pub fn read_u32(bytes: &[u8], offset: usize) -> (r: Result<u32>)
    ensures
        in_bounds(bytes@, offset as int, 4) ==> r == Ok::<u32, UnocRsError>(u32_at(bytes@, offset as int)),
        !in_bounds(bytes@, offset as int, 4) ==> (r matches Err(e) && is_eof_error(e, offset as int, 4, bytes@.len() as int)),
{
    let slice = checked_slice(bytes, offset, 4)?;
    let v: u32 = (slice[0] as u32) + 256 * (slice[1] as u32) + 65536 * (slice[2] as u32)
        + 16777216 * (slice[3] as u32);
    Ok(v)
}

/// The `len` bytes at `offset`, or an end-of-buffer error when they do not all lie inside
/// `bytes`.
pub fn checked_slice(bytes: &[u8], offset: usize, len: usize) -> (r: Result<&[u8]>)
    ensures
        in_bounds(bytes@, offset as int, len as int) ==> (r matches Ok(s) && s@ == bytes@.subrange(offset as int, offset + len)),
        !in_bounds(bytes@, offset as int, len as int) ==> (r matches Err(e) && is_eof_error(e, offset as int, len as int, bytes@.len() as int)),
{
    if offset > bytes.len() || len > bytes.len() - offset {
        return Err(UnocRsError::UnexpectedEof { offset, needed: len, len: bytes.len() });
    }
    Ok(&bytes[offset..offset + len])
}

} // verus!
