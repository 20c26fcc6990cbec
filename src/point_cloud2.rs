//! Sensor point-cloud records: their layout, and the framing of their byte
//! buffer into per-point channel words.
//!
//! A record holds `height * width` points of `point_step` bytes each. A
//! point's x, y, z and intensity channels are little-endian 32-bit words at
//! byte offsets 0, 4, 8 and 16 of it. Turning a word into a coordinate (its
//! floating-point reading, scaled to thousandths) belongs to the caller.

use vstd::prelude::*;

verus! {

/// Byte offset of the x channel within a point.
pub const X_OFFSET: usize = 0;

/// Byte offset of the y channel within a point.
pub const Y_OFFSET: usize = 4;

/// Byte offset of the z channel within a point.
pub const Z_OFFSET: usize = 8;

/// Byte offset of the intensity channel within a point.
pub const I_OFFSET: usize = 16;

/// Fewest bytes a point can take: its last channel ends here.
pub const MIN_POINT_STEP: u32 = 20;

/// One channel of a record's point layout.
#[derive(Debug, Clone)]
pub struct PointField {
    pub name: String,
    pub offset: u32,
    pub datatype: u8,
    pub count: u32,
}

impl PointField {
    pub fn new(name: String, offset: u32, datatype: u8, count: u32) -> (r: PointField)
        ensures
            r.name@ == name@,
            r.offset == offset,
            r.datatype == datatype,
            r.count == count,
    {
        PointField { name, offset, datatype, count }
    }
}

/// A decoded sensor point-cloud record.
#[derive(Debug, Clone)]
pub struct PointCloud2 {
    pub stamp_sec: i32,
    pub stamp_nanosec: u32,
    pub frame_id: String,
    pub height: u32,
    pub width: u32,
    pub fields: Vec<PointField>,
    pub is_bigendian: bool,
    pub point_step: u32,
    pub row_step: u32,
    pub data: Vec<u8>,
    pub is_dense: bool,
}

/// Why a record's buffer cannot be framed.
#[derive(Debug, Clone, Copy, PartialEq, Eq, Structural)]
pub enum DecodeError {
    /// The buffer is shorter than `height * width * point_step` bytes.
    LengthMismatch,
    /// A point is too short to hold its four channels.
    PointTooShort,
}

/// The little-endian word of the four bytes of `data` from `pos`.
pub open spec fn word_at(data: Seq<u8>, pos: int) -> u32 {
    (data[pos] as int + 256 * data[pos + 1] as int + 65536 * data[pos + 2] as int + 16777216 * data[pos
        + 3] as int) as u32
}

/// The channel words (x, y, z, intensity) of point `k`.
pub open spec fn point_words(data: Seq<u8>, step: int, k: int) -> [u32; 4] {
    [
        word_at(data, k * step + X_OFFSET),
        word_at(data, k * step + Y_OFFSET),
        word_at(data, k * step + Z_OFFSET),
        word_at(data, k * step + I_OFFSET),
    ]
}

/// Number of points a record declares.
pub open spec fn num_points_of(msg: &PointCloud2) -> int {
    msg.height * msg.width
}

/// The error, if any, that framing `msg` meets.
pub open spec fn frame_error(msg: &PointCloud2) -> Option<DecodeError> {
    if num_points_of(msg) > 0 && msg.point_step < MIN_POINT_STEP {
        Some(DecodeError::PointTooShort)
    } else if num_points_of(msg) * msg.point_step > msg.data@.len() {
        Some(DecodeError::LengthMismatch)
    } else {
        None
    }
}

/// The little-endian word of four bytes.
fn read_word(data: &Vec<u8>, pos: usize) -> (r: u32)
    requires
        pos + 4 <= data@.len(),
    ensures
        r == word_at(data@, pos as int),
{
    let len = data.len();
    let b0 = data[pos] as u32;
    let b1 = data[pos + 1] as u32;
    let b2 = data[pos + 2] as u32;
    let b3 = data[pos + 3] as u32;
    b0 + 256 * b1 + 65536 * b2 + 16777216 * b3
}

impl PointCloud2 {
    pub fn new(
        stamp_sec: i32,
        stamp_nanosec: u32,
        frame_id: String,
        height: u32,
        width: u32,
        fields: Vec<PointField>,
        is_bigendian: bool,
        point_step: u32,
        row_step: u32,
        data: Vec<u8>,
        is_dense: bool,
    ) -> (r: PointCloud2)
        ensures
            r.stamp_sec == stamp_sec,
            r.stamp_nanosec == stamp_nanosec,
            r.frame_id@ == frame_id@,
            r.height == height,
            r.width == width,
            r.fields@ == fields@,
            r.is_bigendian == is_bigendian,
            r.point_step == point_step,
            r.row_step == row_step,
            r.data@ == data@,
            r.is_dense == is_dense,
    {
        PointCloud2 {
            stamp_sec,
            stamp_nanosec,
            frame_id,
            height,
            width,
            fields,
            is_bigendian,
            point_step,
            row_step,
            data,
            is_dense,
        }
    }

    /// The channel words of every point, in order: an error where a point
    /// cannot hold its channels or the buffer is shorter than the points it
    /// declares.
    pub fn channel_words(&self) -> (r: Result<Vec<[u32; 4]>, DecodeError>)
        ensures
            frame_error(self) == None::<DecodeError> <==> r.is_ok(),
            r matches Err(e) ==> frame_error(self) == Some(e),
            r matches Ok(w) ==> w@.len() == num_points_of(self) && forall|k: int|
                0 <= k < w@.len() ==> #[trigger] w@[k] == point_words(self.data@, self.point_step as int, k),
    {
        proof {
            assert(self.height * self.width <= 0xffff_ffff * 0xffff_ffff) by (nonlinear_arith)
                requires
                    self.height <= 0xffff_ffff,
                    self.width <= 0xffff_ffff,
            ;
        }
        let n: u64 = self.height as u64 * self.width as u64;
        let len = self.data.len();
        let step: u64 = self.point_step as u64;
        proof {
            assert(n * step <= 0xffff_ffff * 0xffff_ffff * 0xffff_ffff) by (nonlinear_arith)
                requires
                    n == self.height * self.width,
                    step <= 0xffff_ffff,
                    self.height <= 0xffff_ffff,
                    self.width <= 0xffff_ffff,
            ;
        }
        if n > 0 && self.point_step < MIN_POINT_STEP {
            return Err(DecodeError::PointTooShort);
        }
        let total: u128 = n as u128 * step as u128;
        if total > self.data.len() as u128 {
            return Err(DecodeError::LengthMismatch);
        }
        let mut out: Vec<[u32; 4]> = Vec::new();
        let mut k: u64 = 0;
        while k < n
            invariant
                k <= n,
                n == num_points_of(self),
                step == self.point_step,
                n > 0 ==> step >= MIN_POINT_STEP,
                n * step <= self.data@.len(),
                len == self.data@.len(),
                out@.len() == k,
                forall|j: int| 0 <= j < k ==> #[trigger] out@[j] == point_words(self.data@, step as int, j),
            decreases n - k,
        {
            proof {
                assert(k * step + step <= n * step) by (nonlinear_arith)
                    requires
                        k < n,
                        step >= 0,
                ;
                assert(k * step >= 0) by (nonlinear_arith)
                    requires
                        k >= 0,
                        step >= 0,
                ;
            }
            let base = (k * step) as usize;
            let w = [
                read_word(&self.data, base + X_OFFSET),
                read_word(&self.data, base + Y_OFFSET),
                read_word(&self.data, base + Z_OFFSET),
                read_word(&self.data, base + I_OFFSET),
            ];
            assert(w == point_words(self.data@, step as int, k as int));
            out.push(w);
            k += 1;
        }
        Ok(out)
    }
}

} // verus!
