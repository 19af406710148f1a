//! Bounds-checked little-endian access to a byte buffer.
use vstd::prelude::*;

verus! {

/// Why a bounds-checked access failed.
#[derive(Debug, Clone, Copy, PartialEq, Eq, Structural)]
pub enum AccessError {
    /// The end of the requested range does not fit in a `usize`.
    OffsetOverflow,
    /// The buffer ends before `end`, the exclusive end of the requested range.
    Truncated { end: usize },
}

/// The unsigned 16-bit little-endian value stored at `off`.
pub open spec fn u16_at(d: Seq<u8>, off: int) -> u16 {
    (d[off] as int + 256 * d[off + 1] as int) as u16
}

/// The unsigned 32-bit little-endian value stored at `off`, as an integer.
pub open spec fn u32_at(d: Seq<u8>, off: int) -> int {
    d[off] as int + 256 * d[off + 1] as int + 65536 * d[off + 2] as int + 16777216 * d[off + 3] as int
}

/// The signed (two's complement) 32-bit little-endian value stored at `off`.
pub open spec fn i32_at(d: Seq<u8>, off: int) -> i32 {
    let u = u32_at(d, off);
    if u < 0x8000_0000 {
        u as i32
    } else {
        (u - 0x1_0000_0000) as i32
    }
}

/// The two's complement bit pattern of `v`, as a value in `0..2^32`.
pub open spec fn i32_bits(v: i32) -> int {
    if v < 0 {
        v + 0x1_0000_0000
    } else {
        v as int
    }
}

/// The four little-endian bytes of `v`.
pub open spec fn i32_le_bytes(v: i32) -> Seq<u8> {
    let u = i32_bits(v);
    seq![
        (u % 256) as u8,
        ((u / 256) % 256) as u8,
        ((u / 65536) % 256) as u8,
        ((u / 16777216) % 256) as u8,
    ]
}

/// `d` with the four bytes at `off` replaced by the encoding of `v`.
pub open spec fn put_i32(d: Seq<u8>, off: int, v: i32) -> Seq<u8> {
    d.take(off) + i32_le_bytes(v) + d.skip(off + 4)
}

/// The outcome of checking the range `off..off + len` against a buffer of
/// length `n`: its end, or the error the accessors report.
pub open spec fn range_end(n: int, off: int, len: int) -> Result<usize, AccessError> {
    if off + len > usize::MAX {
        Err(AccessError::OffsetOverflow)
    } else if off + len > n {
        Err(AccessError::Truncated { end: (off + len) as usize })
    } else {
        Ok((off + len) as usize)
    }
}

/// Reads a `u16` LE value at `*offset` and advances `*offset` past it.
pub fn read_u16(data: &[u8], offset: &mut usize) -> (res: Result<u16, AccessError>)
    ensures
        match range_end(data@.len() as int, *old(offset) as int, 2) {
            Ok(end) => res == Ok::<u16, AccessError>(u16_at(data@, *old(offset) as int))
                && *final(offset) == end,
            Err(e) => res == Err::<u16, AccessError>(e) && *final(offset) == *old(offset),
        },
{
    let start = *offset;
    let end = match start.checked_add(2) {
        Some(end) => end,
        None => return Err(AccessError::OffsetOverflow),
    };
    if end > data.len() {
        return Err(AccessError::Truncated { end });
    }
    *offset = end;
    Ok(data[start] as u16 + 256 * (data[start + 1] as u16))
}

/// Reads `len` bytes at `*offset` and advances `*offset` past them.
pub fn read_bytes<'a>(data: &'a [u8], offset: &mut usize, len: usize) -> (res: Result<&'a [u8], AccessError>)
    ensures
        match range_end(data@.len() as int, *old(offset) as int, len as int) {
            Ok(end) => res matches Ok(b) && b@ == data@.subrange(*old(offset) as int, end as int)
                && *final(offset) == end,
            Err(e) => res matches Err(r) && r == e && *final(offset) == *old(offset),
        },
{
    let start = *offset;
    let end = match start.checked_add(len) {
        Some(end) => end,
        None => return Err(AccessError::OffsetOverflow),
    };
    if end > data.len() {
        return Err(AccessError::Truncated { end });
    }
    *offset = end;
    Ok(&data[start..end])
}

/// Reads an `i32` LE value at `offset`.
pub fn read_i32_at(data: &[u8], offset: usize) -> (res: Result<i32, AccessError>)
    ensures
        match range_end(data@.len() as int, offset as int, 4) {
            Ok(_) => res == Ok::<i32, AccessError>(i32_at(data@, offset as int)),
            Err(e) => res == Err::<i32, AccessError>(e),
        },
{
    let end = match offset.checked_add(4) {
        Some(end) => end,
        None => return Err(AccessError::OffsetOverflow),
    };
    if end > data.len() {
        return Err(AccessError::Truncated { end });
    }
    let u: u32 = data[offset] as u32 + 256 * (data[offset + 1] as u32) + 65536 * (
    data[offset + 2] as u32) + 16777216 * (data[offset + 3] as u32);
    if u < 0x8000_0000 {
        Ok(u as i32)
    } else {
        Ok((u as i64 - 0x1_0000_0000) as i32)
    }
}

/// Writes `value` as an `i32` LE value at `offset`.
pub fn write_i32_at(data: &mut [u8], offset: usize, value: i32) -> (res: Result<(), AccessError>)
    ensures
        match range_end(old(data)@.len() as int, offset as int, 4) {
            Ok(_) => res is Ok && final(data)@ == put_i32(old(data)@, offset as int, value),
            Err(e) => res == Err::<(), AccessError>(e) && final(data)@ == old(data)@,
        },
{
    let end = match offset.checked_add(4) {
        Some(end) => end,
        None => return Err(AccessError::OffsetOverflow),
    };
    if end > data.len() {
        return Err(AccessError::Truncated { end });
    }
    let u: u32 = if value < 0 {
        (value as i64 + 0x1_0000_0000) as u32
    } else {
        value as u32
    };
    let ghost before = data@;
    data[offset] = (u % 256) as u8;
    data[offset + 1] = ((u / 256) % 256) as u8;
    data[offset + 2] = ((u / 65536) % 256) as u8;
    data[offset + 3] = ((u / 16777216) % 256) as u8;
    assert(data@ =~= put_i32(before, offset as int, value));
    Ok(())
}

/// Writing a value and reading it back at the same offset gives the value.
pub proof fn lemma_read_after_write(d: Seq<u8>, off: int, v: i32)
    requires
        0 <= off,
        off + 4 <= d.len(),
    ensures
        put_i32(d, off, v).len() == d.len(),
        i32_at(put_i32(d, off, v), off) == v,
        forall|k: int| 0 <= k < d.len() && !(off <= k < off + 4) ==> #[trigger] put_i32(d, off, v)[k] == d[k],
{
    let w = put_i32(d, off, v);
    let u = i32_bits(v);
    assert(w[off] == (u % 256) as u8);
    assert(w[off + 1] == ((u / 256) % 256) as u8);
    assert(w[off + 2] == ((u / 65536) % 256) as u8);
    assert(w[off + 3] == ((u / 16777216) % 256) as u8);
    lemma_bytes_recompose(u);
}

proof fn lemma_bytes_recompose(u: int)
    requires
        0 <= u < 0x1_0000_0000,
    ensures
        (u % 256) + 256 * ((u / 256) % 256) + 65536 * ((u / 65536) % 256) + 16777216 * ((u / 16777216) % 256) == u,
        0 <= u % 256 < 256,
        0 <= (u / 256) % 256 < 256,
        0 <= (u / 65536) % 256 < 256,
        0 <= (u / 16777216) % 256 < 256,
{
    assert((u % 256) + 256 * ((u / 256) % 256) + 65536 * ((u / 65536) % 256) + 16777216 * ((u / 16777216) % 256) == u) by (nonlinear_arith)
        requires 0 <= u < 0x1_0000_0000;
    assert(0 <= (u / 16777216) % 256 < 256) by (nonlinear_arith) requires 0 <= u;
    assert(0 <= (u / 65536) % 256 < 256) by (nonlinear_arith) requires 0 <= u;
    assert(0 <= (u / 256) % 256 < 256) by (nonlinear_arith) requires 0 <= u;
}

} // verus!
