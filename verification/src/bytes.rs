//! Big-endian field reads over a byte buffer, with their mathematical
//! counterparts on `Seq<u8>`.

use vstd::prelude::*;

verus! {

/// The big-endian 16-bit value stored at `off`.
pub open spec fn be_u16_at(b: Seq<u8>, off: int) -> u16
    recommends
        0 <= off,
        off + 2 <= b.len(),
{
    (b[off] as u16 * 256 + b[off + 1] as u16) as u16
}

/// The big-endian 32-bit value stored at `off`.
pub open spec fn be_u32_at(b: Seq<u8>, off: int) -> u32
    recommends
        0 <= off,
        off + 4 <= b.len(),
{
    (b[off] as u32 * 0x1000000 + b[off + 1] as u32 * 0x10000 + b[off + 2] as u32 * 0x100 + b[off
        + 3] as u32) as u32
}

/// The big-endian bytes of a 32-bit value, most significant first.
pub open spec fn be_u32_bytes(x: u32) -> Seq<u8> {
    seq![
        (x / 0x1000000) as u8,
        ((x / 0x10000) % 0x100) as u8,
        ((x / 0x100) % 0x100) as u8,
        (x % 0x100) as u8,
    ]
}

/// Reading back the big-endian bytes of `x` yields `x` again.
pub proof fn lemma_be_u32_round_trip(b: Seq<u8>, off: int, x: u32)
    requires
        0 <= off,
        off + 4 <= b.len(),
        b[off] == be_u32_bytes(x)[0],
        b[off + 1] == be_u32_bytes(x)[1],
        b[off + 2] == be_u32_bytes(x)[2],
        b[off + 3] == be_u32_bytes(x)[3],
    ensures
        be_u32_at(b, off) == x,
{
    assert(b[off] as u32 * 0x1000000 + b[off + 1] as u32 * 0x10000 + b[off + 2] as u32 * 0x100 + b[
        off + 3] as u32 == x) by (nonlinear_arith)
        requires
            b[off] == (x / 0x1000000) as u8,
            b[off + 1] == ((x / 0x10000) % 0x100) as u8,
            b[off + 2] == ((x / 0x100) % 0x100) as u8,
            b[off + 3] == (x % 0x100) as u8,
    ;
}

/// Reads the byte at `off`.
pub fn read_u8(b: &Vec<u8>, off: usize) -> (r: u8)
    requires
        off < b@.len(),
    ensures
        r == b@[off as int],
{
    b[off]
}

/// Reads the big-endian 16-bit field at `off`.
pub fn read_be_u16(b: &Vec<u8>, off: usize) -> (r: u16)
    requires
        off + 2 <= b@.len(),
    ensures
        r == be_u16_at(b@, off as int),
{
    let _n: usize = b.len();
    let hi: u16 = b[off] as u16;
    let lo: u16 = b[off + 1] as u16;
    hi * 256 + lo
}

/// Reads the big-endian 32-bit field at `off`.
pub fn read_be_u32(b: &Vec<u8>, off: usize) -> (r: u32)
    requires
        off + 4 <= b@.len(),
    ensures
        r == be_u32_at(b@, off as int),
{
    let _n: usize = b.len();
    let b0: u32 = b[off] as u32;
    let b1: u32 = b[off + 1] as u32;
    let b2: u32 = b[off + 2] as u32;
    let b3: u32 = b[off + 3] as u32;
    b0 * 0x1000000 + b1 * 0x10000 + b2 * 0x100 + b3
}

} // verus!
