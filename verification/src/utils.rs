//! Bulk decoding of fixed-size values from bytes.
//!
//! A byte source supplies raw blocks of four bytes each; a block is one
//! 32-bit value in two's complement, least significant byte first. Reading
//! the bytes is left to the caller: this module takes what was read and
//! fills a buffer that the caller has allocated.

use vstd::prelude::*;

verus! {

/// Why a bulk read did not fill the buffer.
#[derive(Debug, PartialEq, Eq, Clone, Copy, Structural)]
pub enum ReadError {
    /// The source holds fewer bytes than were asked for.
    IoError,
    /// More values were asked for than the buffer can take.
    PreconditionViolation,
}

/// The value of the block of four bytes that starts at `at`.
pub open spec fn block_value(bytes: Seq<u8>, at: int) -> int {
    let u = bytes[at] + bytes[at + 1] * 0x100 + bytes[at + 2] * 0x1_0000 + bytes[at + 3]
        * 0x100_0000;
    if u >= 0x8000_0000 {
        u - 0x1_0000_0000
    } else {
        u
    }
}

/// `array` after its first `count` elements were filled with the values of
/// the first `count` blocks of `bytes`.
pub open spec fn filled(array: Seq<i32>, bytes: Seq<u8>, count: int) -> Seq<i32> {
    Seq::new(
        array.len(),
        |j: int|
            if j < count {
                block_value(bytes, 4 * j) as i32
            } else {
                array[j]
            },
    )
}

/// Decodes one block.
fn read_block(bytes: &[u8], at: usize) -> (r: i32)
    requires
        at + 4 <= bytes.len(),
    ensures
        r == block_value(bytes@, at as int),
{
    let b0: u32 = bytes[at] as u32;
    let b1: u32 = bytes[at + 1] as u32;
    let b2: u32 = bytes[at + 2] as u32;
    let b3: u32 = bytes[at + 3] as u32;
    let u: u32 = b0 + b1 * 0x100 + b2 * 0x1_0000 + b3 * 0x100_0000;
    if u >= 0x8000_0000 {
        ((u - 0x8000_0000) as i32) + i32::MIN
    } else {
        u as i32
    }
}

/// Fills the first `count` elements of `array` with the values of the first
/// `count` blocks of `bytes`.
///
/// Fails, and leaves `array` as it is, if `array` has fewer than `count`
/// elements or `bytes` holds fewer than `count` blocks. The rest of `array`
/// is never written.
pub fn read_blocks_from_bytes(bytes: &[u8], array: &mut [i32], count: usize) -> (r: Result<
    (),
    ReadError,
>)
    ensures
        final(array).len() == old(array).len(),
        count > old(array).len() ==> r == Err::<(), ReadError>(ReadError::PreconditionViolation),
        count <= old(array).len() && bytes.len() < 4 * count ==> r == Err::<(), ReadError>(
            ReadError::IoError,
        ),
        count <= old(array).len() && bytes.len() >= 4 * count ==> r == Ok::<(), ReadError>(()),
        r is Err ==> final(array)@ == old(array)@,
        r is Ok ==> final(array)@ == filled(old(array)@, bytes@, count as int),
{
    if count > array.len() {
        return Err(ReadError::PreconditionViolation);
    }
    if bytes.len() / 4 < count {
        return Err(ReadError::IoError);
    }
    let mut i: usize = 0;
    while i < count
        invariant
            i <= count <= array.len(),
            array.len() == old(array).len(),
            4 * count <= bytes.len(),
            array@ == filled(old(array)@, bytes@, i as int),
        decreases count - i,
    {
        let v = read_block(bytes, 4 * i);
        array[i] = v;
        proof {
            assert(array@ =~= filled(old(array)@, bytes@, i + 1));
        }
        i += 1;
    }
    Ok(())
}

} // verus!
