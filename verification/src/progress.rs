//! The progress area that the engine fills for the host: twenty bytes that
//! hold, little-endian, the progress in percent (bytes 0 to 3), the number
//! of regions searched (4 to 7), the number of results found (8 to 15) and
//! a heartbeat (16 to 19).
use crate::types::byte_weight;
use vstd::prelude::*;

verus! {

/// The number of bytes of the progress area.
pub const PROGRESS_BUFFER_LEN: usize = 20;

/// Byte `i` of the little-endian two's-complement representation of
/// `value` in `width` bytes, for a width of four or eight.
pub open spec fn le_byte(value: int, width: int, i: int) -> u8 {
    let modulus: int = if width == 4 {
        0x1_0000_0000
    } else {
        0x1_0000_0000_0000_0000
    };
    let raw: int = if value >= 0 {
        value
    } else {
        value + modulus
    };
    ((raw / byte_weight(i)) % 256) as u8
}

/// The little-endian two's-complement representation of `value` in
/// `width` bytes.
pub open spec fn le_bytes(value: int, width: int) -> Seq<u8> {
    Seq::new(width as nat, |i: int| le_byte(value, width, i))
}

/// The share of `completed` in `total` in percent, rounded down, and 0
/// where `total` is 0; never above 100.
pub open spec fn percent(completed: int, total: int) -> int {
    if total <= 0 || completed <= 0 {
        0
    } else if completed >= total {
        100
    } else {
        completed * 100 / total
    }
}

/// The progress in percent when `completed` of `total` items are done.
pub fn progress_percent(completed: usize, total: usize) -> (progress: i32)
    ensures
        progress == percent(completed as int, total as int),
        0 <= progress <= 100,
{
    if total == 0 || completed == 0 {
        0
    } else if completed >= total {
        100
    } else {
        let scaled: u128 = completed as u128 * 100;
        let share: u128 = scaled / total as u128;
        assert(share < 100 && share == completed as int * 100 / total as int) by (nonlinear_arith)
            requires
                share == scaled as int / total as int,
                scaled == completed as int * 100,
                0 < completed < total,
        ;
        share as i32
    }
}

/// The four bytes of a 32-bit number, least significant first.
fn le_bytes_i32(value: i32) -> (bytes: [u8; 4])
    ensures
        bytes@ == le_bytes(value as int, 4),
{
    let raw: u64 = if value >= 0 {
        value as u64
    } else {
        (value as i64 + 0x1_0000_0000) as u64
    };
    let bytes: [u8; 4] = [
        (raw % 256) as u8,
        (raw / 0x100 % 256) as u8,
        (raw / 0x1_0000 % 256) as u8,
        (raw / 0x100_0000 % 256) as u8,
    ];
    assert(bytes@ =~= le_bytes(value as int, 4));
    bytes
}

/// The eight bytes of a 64-bit number, least significant first.
fn le_bytes_i64(value: i64) -> (bytes: [u8; 8])
    ensures
        bytes@ == le_bytes(value as int, 8),
{
    let raw: u128 = if value >= 0 {
        value as u128
    } else {
        (value as i128 + 0x1_0000_0000_0000_0000) as u128
    };
    let bytes: [u8; 8] = [
        (raw % 256) as u8,
        (raw / 0x100 % 256) as u8,
        (raw / 0x1_0000 % 256) as u8,
        (raw / 0x100_0000 % 256) as u8,
        (raw / 0x1_0000_0000 % 256) as u8,
        (raw / 0x100_0000_0000 % 256) as u8,
        (raw / 0x1_0000_0000_0000 % 256) as u8,
        (raw / 0x100_0000_0000_0000 % 256) as u8,
    ];
    assert(bytes@ =~= le_bytes(value as int, 8));
    bytes
}

/// `bytes` with `part` written over it from `at` on.
pub open spec fn overwrite(bytes: Seq<u8>, at: int, part: Seq<u8>) -> Seq<u8> {
    Seq::new(
        bytes.len(),
        |i: int|
            if at <= i < at + part.len() {
                part[i - at]
            } else {
                bytes[i]
            },
    )
}

/// The area after progress, regions searched and results found were
/// written: an area of fewer than twenty bytes stays as it is.
pub open spec fn with_progress(
    bytes: Seq<u8>,
    progress: i32,
    regions_searched: i32,
    total_found: i64,
) -> Seq<u8> {
    if bytes.len() < 20 {
        bytes
    } else {
        overwrite(
            overwrite(
                overwrite(bytes, 0, le_bytes(progress as int, 4)),
                4,
                le_bytes(regions_searched as int, 4),
            ),
            8,
            le_bytes(total_found as int, 8),
        )
    }
}

/// The area after the heartbeat was written: an area of fewer than twenty
/// bytes stays as it is.
pub open spec fn with_heartbeat(bytes: Seq<u8>, heartbeat: i32) -> Seq<u8> {
    if bytes.len() < 20 {
        bytes
    } else {
        overwrite(bytes, 16, le_bytes(heartbeat as int, 4))
    }
}

/// The progress area as the engine last filled it. The host's memory is
/// not touched here: whoever owns the area copies `as_bytes` into it.
#[derive(Debug, Clone)]
pub struct ProgressBuffer {
    bytes: Vec<u8>,
}

impl View for ProgressBuffer {
    type V = Seq<u8>;

    closed spec fn view(&self) -> Seq<u8> {
        self.bytes@
    }
}

impl ProgressBuffer {
    /// An area of `len` bytes, all zero.
    pub fn new(len: usize) -> (buffer: ProgressBuffer)
        ensures
            buffer@.len() == len,
            forall|i: int| 0 <= i < len ==> buffer@[i] == 0,
    {
        ProgressBuffer { bytes: vec![0u8; len] }
    }

    /// Writes `part` over the area from `at` on.
    fn write(&mut self, at: usize, part: &[u8])
        requires
            at + part@.len() <= old(self)@.len(),
        ensures
            final(self)@ == overwrite(old(self)@, at as int, part@),
    {
        let n = part.len();
        let size = self.bytes.len();
        let mut i: usize = 0;
        while i < n
            invariant
                0 <= i <= n,
                n == part@.len(),
                size == self.bytes@.len(),
                size == old(self).bytes@.len(),
                at + n <= size,
                self.bytes@ == overwrite(old(self).bytes@, at as int, part@.take(i as int)),
            decreases n - i,
        {
            self.bytes.set(at + i, part[i]);
            proof {
                assert(self.bytes@ =~= overwrite(
                    old(self).bytes@,
                    at as int,
                    part@.take(i as int + 1),
                ));
            }
            i += 1;
        }
        proof {
            assert(part@.take(n as int) =~= part@);
        }
    }

    /// Writes the progress, the number of regions searched and the number
    /// of results found. An area of fewer than twenty bytes stays as it
    /// is.
    pub fn update(&mut self, progress: i32, regions_searched: i32, total_found: i64)
        ensures
            final(self)@ == with_progress(old(self)@, progress, regions_searched, total_found),
    {
        if self.bytes.len() < PROGRESS_BUFFER_LEN {
            return ;
        }
        let first = le_bytes_i32(progress);
        self.write(0, first.as_slice());
        let second = le_bytes_i32(regions_searched);
        self.write(4, second.as_slice());
        let third = le_bytes_i64(total_found);
        self.write(8, third.as_slice());
    }

    /// Writes the heartbeat. An area of fewer than twenty bytes stays as
    /// it is.
    pub fn update_heartbeat(&mut self, heartbeat: i32)
        ensures
            final(self)@ == with_heartbeat(old(self)@, heartbeat),
    {
        if self.bytes.len() < PROGRESS_BUFFER_LEN {
            return ;
        }
        let bytes = le_bytes_i32(heartbeat);
        self.write(16, bytes.as_slice());
    }

    /// Writes zero to every field. An area of fewer than twenty bytes
    /// stays as it is.
    pub fn reset(&mut self)
        ensures
            final(self)@ == with_heartbeat(with_progress(old(self)@, 0, 0, 0), 0),
            final(self)@.len() == old(self)@.len(),
            old(self)@.len() < 20 ==> final(self)@ == old(self)@,
            old(self)@.len() >= 20 ==> forall|i: int|
                0 <= i < final(self)@.len() ==> final(self)@[i] == (if i < 20 {
                    0u8
                } else {
                    old(self)@[i]
                }),
    {
        self.update(0, 0, 0);
        self.update_heartbeat(0);
    }

    /// The bytes of the area.
    pub fn as_bytes(&self) -> (bytes: &[u8])
        ensures
            bytes@ == self@,
    {
        self.bytes.as_slice()
    }
}

} // verus!
