use vstd::prelude::*;
use vstd::string::*;

verus! {

/// Size of the header of the coordinate map file: width, height and
/// channel count, each a little-endian `i32`.
pub const COORD_HEADER_LEN: usize = 12;

/// Size of the header of the interpolation map file: width and height, each
/// a little-endian `i32`.
pub const INTERP_HEADER_LEN: usize = 8;

/// The coordinate map holds two channels per pixel.
pub const COORD_CHANNELS: i32 = 2;

/// Why a remap table file could not be read.
#[derive(Clone, Copy, Debug, PartialEq, Eq, Structural)]
pub enum MapError {
    /// The file ends before the header or before the last sample.
    Truncated,
    /// The header gives a negative width or height.
    NegativeSize,
}

/// The coordinate table (two signed 16-bit channels per pixel) as stored in
/// its file: the samples in file order, pixel by pixel along the height
/// within the width, `channels` samples per pixel.
pub struct CoordMap {
    pub width: i32,
    pub height: i32,
    pub channels: i32,
    pub values: Vec<i16>,
}

/// The interpolation table (one unsigned 16-bit channel per pixel) as stored
/// in its file: the samples in file order, along the height within the width.
pub struct InterpMap {
    pub width: i32,
    pub height: i32,
    pub values: Vec<u16>,
}

/// The unsigned value of the two bytes at `at`, little-endian.
pub open spec fn le_u16(b: Seq<u8>, at: int) -> int {
    b[at] + 256 * b[at + 1]
}

/// The two's-complement value of the two bytes at `at`, little-endian.
pub open spec fn le_i16(b: Seq<u8>, at: int) -> int {
    let v = le_u16(b, at);
    if v >= 0x8000 {
        v - 0x1_0000
    } else {
        v
    }
}

/// The two's-complement value of the four bytes at `at`, little-endian.
pub open spec fn le_i32(b: Seq<u8>, at: int) -> int {
    let v = b[at] + 0x100 * b[at + 1] + 0x1_0000 * b[at + 2] + 0x100_0000 * b[at + 3];
    if v >= 0x8000_0000 {
        v - 0x1_0000_0000
    } else {
        v
    }
}

pub open spec fn non_negative(v: int) -> int {
    if v < 0 {
        0
    } else {
        v
    }
}

/// The number of samples the coordinate file holds after its header.
pub open spec fn coord_sample_count(b: Seq<u8>) -> int {
    le_i32(b, 0) * le_i32(b, 4) * non_negative(le_i32(b, 8))
}

/// The number of samples the interpolation file holds after its header.
pub open spec fn interp_sample_count(b: Seq<u8>) -> int {
    le_i32(b, 0) * le_i32(b, 4)
}

/// A header that asks for more channels than the table has cannot be stored
/// once the third sample of the first pixel is read.
pub open spec fn coord_channels_fit(b: Seq<u8>) -> bool {
    b.len() >= COORD_HEADER_LEN + 6 && le_i32(b, 0) > 0 && le_i32(b, 4) > 0 ==> le_i32(b, 8)
        <= COORD_CHANNELS
}

/// What reading a coordinate table file gives: an error, or the header and
/// the count of samples to decode.
pub open spec fn coord_outcome(b: Seq<u8>) -> Result<(int, int, int, int), MapError> {
    if b.len() < COORD_HEADER_LEN {
        Err(MapError::Truncated)
    } else if le_i32(b, 0) < 0 || le_i32(b, 4) < 0 {
        Err(MapError::NegativeSize)
    } else if b.len() < COORD_HEADER_LEN + 2 * coord_sample_count(b) {
        Err(MapError::Truncated)
    } else {
        Ok((le_i32(b, 0), le_i32(b, 4), le_i32(b, 8), coord_sample_count(b)))
    }
}

/// What reading an interpolation table file gives: an error, or the header
/// and the count of samples to decode.
pub open spec fn interp_outcome(b: Seq<u8>) -> Result<(int, int, int), MapError> {
    if b.len() < INTERP_HEADER_LEN {
        Err(MapError::Truncated)
    } else if le_i32(b, 0) < 0 || le_i32(b, 4) < 0 {
        Err(MapError::NegativeSize)
    } else if b.len() < INTERP_HEADER_LEN + 2 * interp_sample_count(b) {
        Err(MapError::Truncated)
    } else {
        Ok((le_i32(b, 0), le_i32(b, 4), interp_sample_count(b)))
    }
}

/// The coordinate table holds exactly what `coord_outcome` gives for `b`,
/// with each sample decoded from its two bytes.
pub open spec fn coord_map_matches(m: CoordMap, b: Seq<u8>) -> bool {
    &&& coord_outcome(b) is Ok
    &&& m.width == coord_outcome(b)->Ok_0.0
    &&& m.height == coord_outcome(b)->Ok_0.1
    &&& m.channels == coord_outcome(b)->Ok_0.2
    &&& m.values@.len() == coord_outcome(b)->Ok_0.3
    &&& forall|k: int|
        0 <= k < m.values@.len() ==> #[trigger] m.values@[k] == le_i16(
            b,
            COORD_HEADER_LEN + 2 * k,
        )
}

/// The interpolation table holds exactly what `interp_outcome` gives for
/// `b`, with each sample decoded from its two bytes.
pub open spec fn interp_map_matches(m: InterpMap, b: Seq<u8>) -> bool {
    &&& interp_outcome(b) is Ok
    &&& m.width == interp_outcome(b)->Ok_0.0
    &&& m.height == interp_outcome(b)->Ok_0.1
    &&& m.values@.len() == interp_outcome(b)->Ok_0.2
    &&& forall|k: int|
        0 <= k < m.values@.len() ==> #[trigger] m.values@[k] == le_u16(
            b,
            INTERP_HEADER_LEN + 2 * k,
        )
}

/// The four bytes of `v` in two's complement, least significant first, as
/// `i32::to_le_bytes` writes them.
pub open spec fn i32_le_bytes(v: i32) -> Seq<u8> {
    let u = v as u32;
    seq![(u & 0xff) as u8, ((u >> 8u32) & 0xff) as u8, ((u >> 16u32) & 0xff) as u8, (u >> 24u32) as u8]
}

/// The two bytes of `v`, least significant first, as `u16::to_le_bytes`
/// writes them.
pub open spec fn u16_le_bytes(v: u16) -> Seq<u8> {
    seq![(v & 0xff) as u8, (v >> 8u16) as u8]
}

/// The two bytes of `v` in two's complement, least significant first, as
/// `i16::to_le_bytes` writes them.
pub open spec fn i16_le_bytes(v: i16) -> Seq<u8> {
    u16_le_bytes(v as u16)
}

/// A header integer written with `i32::to_le_bytes` anywhere in a file reads
/// back as the same value: all four bytes count, the top one carrying the
/// sign.
pub proof fn lemma_le_i32_round_trip(b: Seq<u8>, at: int, v: i32)
    requires
        0 <= at,
        at + 4 <= b.len(),
        b.subrange(at, at + 4) == i32_le_bytes(v),
    ensures
        le_i32(b, at) == v,
{
    let u = v as u32;
    assert(b[at] == i32_le_bytes(v)[0]);
    assert(b[at + 1] == i32_le_bytes(v)[1]);
    assert(b[at + 2] == i32_le_bytes(v)[2]);
    assert(b[at + 3] == i32_le_bytes(v)[3]);
    let b0 = (u & 0xff) as u8;
    let b1 = ((u >> 8u32) & 0xff) as u8;
    let b2 = ((u >> 16u32) & 0xff) as u8;
    let b3 = (u >> 24u32) as u8;
    assert(b0 as int + 0x100 * (b1 as int) + 0x1_0000 * (b2 as int) + 0x100_0000 * (b3 as int)
        == u as int) by (bit_vector)
        requires
            b0 == (u & 0xff) as u8,
            b1 == ((u >> 8u32) & 0xff) as u8,
            b2 == ((u >> 16u32) & 0xff) as u8,
            b3 == (u >> 24u32) as u8,
    ;
    assert((v < 0 ==> u as int == v as int + 0x1_0000_0000) && (v >= 0 ==> u as int == v as int))
        by (bit_vector)
        requires
            u == v as u32,
    ;
}

/// A sample written with `u16::to_le_bytes` reads back as the same value.
pub proof fn lemma_le_u16_round_trip(b: Seq<u8>, at: int, v: u16)
    requires
        0 <= at,
        at + 2 <= b.len(),
        b.subrange(at, at + 2) == u16_le_bytes(v),
    ensures
        le_u16(b, at) == v,
{
    assert(b[at] == u16_le_bytes(v)[0]);
    assert(b[at + 1] == u16_le_bytes(v)[1]);
    let b0 = (v & 0xff) as u8;
    let b1 = (v >> 8u16) as u8;
    assert(b0 as int + 256 * (b1 as int) == v as int) by (bit_vector)
        requires
            b0 == (v & 0xff) as u8,
            b1 == (v >> 8u16) as u8,
    ;
}

/// A sample written with `i16::to_le_bytes` reads back as the same value.
pub proof fn lemma_le_i16_round_trip(b: Seq<u8>, at: int, v: i16)
    requires
        0 <= at,
        at + 2 <= b.len(),
        b.subrange(at, at + 2) == i16_le_bytes(v),
    ensures
        le_i16(b, at) == v,
{
    let u = v as u16;
    lemma_le_u16_round_trip(b, at, u);
    assert((v < 0 ==> u as int == v as int + 0x1_0000) && (v >= 0 ==> u as int == v as int))
        by (bit_vector)
        requires
            u == v as u16,
    ;
}

/// Samples written one after the other with `u16::to_le_bytes`.
pub open spec fn u16_samples_bytes(vals: Seq<u16>) -> Seq<u8>
    decreases vals.len(),
{
    if vals.len() == 0 {
        Seq::empty()
    } else {
        u16_samples_bytes(vals.drop_last()) + u16_le_bytes(vals.last())
    }
}

/// Samples written one after the other with `i16::to_le_bytes`.
pub open spec fn i16_samples_bytes(vals: Seq<i16>) -> Seq<u8>
    decreases vals.len(),
{
    if vals.len() == 0 {
        Seq::empty()
    } else {
        i16_samples_bytes(vals.drop_last()) + i16_le_bytes(vals.last())
    }
}

proof fn lemma_u16_samples_layout(vals: Seq<u16>)
    ensures
        u16_samples_bytes(vals).len() == 2 * vals.len(),
        forall|k: int|
            0 <= k < vals.len() ==> u16_samples_bytes(vals).subrange(2 * k, 2 * k + 2)
                == u16_le_bytes(#[trigger] vals[k]),
    decreases vals.len(),
{
    if vals.len() > 0 {
        let p = vals.drop_last();
        lemma_u16_samples_layout(p);
        let all = u16_samples_bytes(vals);
        assert forall|k: int| 0 <= k < vals.len() implies all.subrange(2 * k, 2 * k + 2)
            == u16_le_bytes(#[trigger] vals[k]) by {
            if k < p.len() {
                assert(vals[k] == p[k]);
                assert(all.subrange(2 * k, 2 * k + 2) =~= u16_samples_bytes(p).subrange(
                    2 * k,
                    2 * k + 2,
                ));
            } else {
                assert(all.subrange(2 * k, 2 * k + 2) =~= u16_le_bytes(vals.last()));
            }
        }
    }
}

proof fn lemma_i16_samples_layout(vals: Seq<i16>)
    ensures
        i16_samples_bytes(vals).len() == 2 * vals.len(),
        forall|k: int|
            0 <= k < vals.len() ==> i16_samples_bytes(vals).subrange(2 * k, 2 * k + 2)
                == i16_le_bytes(#[trigger] vals[k]),
    decreases vals.len(),
{
    if vals.len() > 0 {
        let p = vals.drop_last();
        lemma_i16_samples_layout(p);
        let all = i16_samples_bytes(vals);
        assert forall|k: int| 0 <= k < vals.len() implies all.subrange(2 * k, 2 * k + 2)
            == i16_le_bytes(#[trigger] vals[k]) by {
            if k < p.len() {
                assert(vals[k] == p[k]);
                assert(all.subrange(2 * k, 2 * k + 2) =~= i16_samples_bytes(p).subrange(
                    2 * k,
                    2 * k + 2,
                ));
            } else {
                assert(all.subrange(2 * k, 2 * k + 2) =~= i16_le_bytes(vals.last()));
            }
        }
    }
}

/// An interpolation table written as its width and height (`i32`, little
/// endian) followed by its `width * height` samples (`u16`, little endian)
/// reads back as exactly that table, whatever follows in the file.
pub proof fn lemma_interp_file_round_trip(w: i32, h: i32, vals: Seq<u16>, extra: Seq<u8>)
    requires
        w >= 0,
        h >= 0,
        vals.len() == w * h,
    ensures
        ({
            let b = i32_le_bytes(w) + i32_le_bytes(h) + u16_samples_bytes(vals) + extra;
            &&& interp_outcome(b) == Ok::<(int, int, int), MapError>((w as int, h as int, vals.len() as int))
            &&& forall|k: int|
                0 <= k < vals.len() ==> #[trigger] le_u16(b, INTERP_HEADER_LEN + 2 * k) == vals[k]
        }),
{
    let b = i32_le_bytes(w) + i32_le_bytes(h) + u16_samples_bytes(vals) + extra;
    lemma_u16_samples_layout(vals);
    assert(b.subrange(0, 4) =~= i32_le_bytes(w));
    assert(b.subrange(4, 8) =~= i32_le_bytes(h));
    lemma_le_i32_round_trip(b, 0, w);
    lemma_le_i32_round_trip(b, 4, h);
    assert forall|k: int| 0 <= k < vals.len() implies #[trigger] le_u16(
        b,
        INTERP_HEADER_LEN + 2 * k,
    ) == vals[k] by {
        assert(b.subrange(8 + 2 * k, 8 + 2 * k + 2) =~= u16_samples_bytes(vals).subrange(
            2 * k,
            2 * k + 2,
        ));
        lemma_le_u16_round_trip(b, 8 + 2 * k, vals[k]);
    }
}

/// A coordinate table written as its width, height and channel count (`i32`,
/// little endian) followed by its `width * height * channels` samples
/// (`i16`, little endian) reads back as exactly that table, whatever follows
/// in the file.
pub proof fn lemma_coord_file_round_trip(w: i32, h: i32, d: i32, vals: Seq<i16>, extra: Seq<u8>)
    requires
        w >= 0,
        h >= 0,
        d >= 0,
        vals.len() == w * h * d,
    ensures
        ({
            let b = i32_le_bytes(w) + i32_le_bytes(h) + i32_le_bytes(d) + i16_samples_bytes(vals)
                + extra;
            &&& coord_outcome(b) == Ok::<(int, int, int, int), MapError>(
                (w as int, h as int, d as int, vals.len() as int),
            )
            &&& forall|k: int|
                0 <= k < vals.len() ==> #[trigger] le_i16(b, COORD_HEADER_LEN + 2 * k) == vals[k]
        }),
{
    let b = i32_le_bytes(w) + i32_le_bytes(h) + i32_le_bytes(d) + i16_samples_bytes(vals) + extra;
    lemma_i16_samples_layout(vals);
    assert(b.subrange(0, 4) =~= i32_le_bytes(w));
    assert(b.subrange(4, 8) =~= i32_le_bytes(h));
    assert(b.subrange(8, 12) =~= i32_le_bytes(d));
    lemma_le_i32_round_trip(b, 0, w);
    lemma_le_i32_round_trip(b, 4, h);
    lemma_le_i32_round_trip(b, 8, d);
    assert forall|k: int| 0 <= k < vals.len() implies #[trigger] le_i16(
        b,
        COORD_HEADER_LEN + 2 * k,
    ) == vals[k] by {
        assert(b.subrange(12 + 2 * k, 12 + 2 * k + 2) =~= i16_samples_bytes(vals).subrange(
            2 * k,
            2 * k + 2,
        ));
        lemma_le_i16_round_trip(b, 12 + 2 * k, vals[k]);
    }
}

impl CoordMap {
    /// The header is consistent with the samples held.
    pub open spec fn wf(&self) -> bool {
        &&& self.width >= 0
        &&& self.height >= 0
        &&& self.values@.len() == self.width * self.height * non_negative(self.channels as int)
    }

    /// The value of channel `c` of the pixel at (`x`, `y`) in the two-channel
    /// table: the stored sample, or zero for a channel the file does not hold.
    pub open spec fn spec_channel(&self, x: int, y: int, c: int) -> int {
        if c < self.channels {
            self.values@[(x * self.height + y) * self.channels + c] as int
        } else {
            0
        }
    }

    /// The value of channel `c` of the pixel at (`x`, `y`) in the two-channel
    /// table: the stored sample, or zero for a channel the file does not hold.
    pub fn channel(&self, x: i32, y: i32, c: i32) -> (v: i16)
        requires
            self.wf(),
            0 <= x < self.width,
            0 <= y < self.height,
            0 <= c < COORD_CHANNELS,
            self.channels <= COORD_CHANNELS,
        ensures
            v == self.spec_channel(x as int, y as int, c as int),
    {
        if c < self.channels {
            let ghost w = self.width as int;
            let ghost h = self.height as int;
            let ghost d = self.channels as int;
            assert(0 <= x * h <= x * h + y <= (x * h + y) * d <= (x * h + y) * d + c < w * h
                * d) by (nonlinear_arith)
                requires
                    0 <= x < w,
                    0 <= y < h,
                    0 <= c < d,
            ;
            let len = self.values.len();
            assert(len == w * h * d);
            let row: usize = (x as usize) * (self.height as usize);
            let pixel: usize = row + (y as usize);
            let k: usize = pixel * (self.channels as usize) + (c as usize);
            self.values[k]
        } else {
            0
        }
    }
}

fn read_i32_le(b: &[u8], at: usize) -> (v: i32)
    requires
        at + 4 <= b@.len(),
    ensures
        v == le_i32(b@, at as int),
{
    let u: i64 = b[at] as i64 + 0x100 * (b[at + 1] as i64) + 0x1_0000 * (b[at + 2] as i64)
        + 0x100_0000 * (b[at + 3] as i64);
    if u >= 0x8000_0000 {
        (u - 0x1_0000_0000) as i32
    } else {
        u as i32
    }
}

fn read_u16_le(b: &[u8], at: usize) -> (v: u16)
    requires
        at + 2 <= b@.len(),
    ensures
        v == le_u16(b@, at as int),
{
    b[at] as u16 + 256 * (b[at + 1] as u16)
}

fn read_i16_le(b: &[u8], at: usize) -> (v: i16)
    requires
        at + 2 <= b@.len(),
    ensures
        v == le_i16(b@, at as int),
{
    let u: i32 = b[at] as i32 + 256 * (b[at + 1] as i32);
    if u >= 0x8000 {
        (u - 0x1_0000) as i16
    } else {
        u as i16
    }
}

/// Whether the header of a coordinate table file asks for more channels than
/// the table has, in a file long enough for that to matter.
pub fn coord_channels_exceed(bytes: &[u8]) -> (r: bool)
    ensures
        r == !coord_channels_fit(bytes@),
{
    if bytes.len() >= COORD_HEADER_LEN + 6 {
        read_i32_le(bytes, 0) > 0 && read_i32_le(bytes, 4) > 0 && read_i32_le(bytes, 8)
            > COORD_CHANNELS
    } else {
        false
    }
}

/// Reads the coordinate table file: width, height and channel count as
/// little-endian `i32`, then `width * height * channels` little-endian `i16`
/// samples. Bytes after the last sample are ignored.
pub fn load_first(bytes: &[u8]) -> (r: Result<CoordMap, MapError>)
    requires
        coord_channels_fit(bytes@),
    ensures
        coord_outcome(bytes@) is Err ==> r == Err::<CoordMap, MapError>(
            coord_outcome(bytes@)->Err_0,
        ),
        coord_outcome(bytes@) is Ok ==> r is Ok && coord_map_matches(r->Ok_0, bytes@) && r->Ok_0.wf(),
{
    if bytes.len() < COORD_HEADER_LEN {
        return Err(MapError::Truncated);
    }
    let w = read_i32_le(bytes, 0);
    let h = read_i32_le(bytes, 4);
    let d = read_i32_le(bytes, 8);
    if w < 0 || h < 0 {
        return Err(MapError::NegativeSize);
    }
    let dn: i32 = if d < 0 {
        0
    } else {
        d
    };
    assert(0 <= w * h <= 0x4000_0000_0000_0000) by (nonlinear_arith)
        requires
            0 <= w <= 0x8000_0000,
            0 <= h <= 0x8000_0000,
    ;
    let wide: u128 = (w as u128) * (h as u128);
    assert(0 <= wide * dn <= 0x4000_0000_0000_0000 * 0x8000_0000) by (nonlinear_arith)
        requires
            0 <= wide <= 0x4000_0000_0000_0000,
            0 <= dn <= 0x8000_0000,
    ;
    let wide2: u128 = wide * (dn as u128);
    assert(wide2 == coord_sample_count(bytes@));
    if ((bytes.len() - COORD_HEADER_LEN) as u128) < 2 * wide2 {
        return Err(MapError::Truncated);
    }
    let count: usize = wide2 as usize;
    let mut values: Vec<i16> = Vec::new();
    let mut k: usize = 0;
    while k < count
        invariant
            count == coord_sample_count(bytes@),
            COORD_HEADER_LEN + 2 * count <= bytes@.len(),
            bytes@.len() == bytes.len(),
            k <= count,
            values@.len() == k,
            forall|j: int|
                0 <= j < k ==> #[trigger] values@[j] == le_i16(bytes@, COORD_HEADER_LEN + 2 * j),
        decreases count - k,
    {
        values.push(read_i16_le(bytes, COORD_HEADER_LEN + 2 * k));
        k += 1;
    }
    Ok(CoordMap { width: w, height: h, channels: d, values })
}

/// Reads the interpolation table file: width and height as little-endian
/// `i32`, then `width * height` little-endian `u16` samples. Bytes after the
/// last sample are ignored.
pub fn load_second(bytes: &[u8]) -> (r: Result<InterpMap, MapError>)
    ensures
        interp_outcome(bytes@) is Err ==> r == Err::<InterpMap, MapError>(
            interp_outcome(bytes@)->Err_0,
        ),
        interp_outcome(bytes@) is Ok ==> r is Ok && interp_map_matches(r->Ok_0, bytes@),
{
    if bytes.len() < INTERP_HEADER_LEN {
        return Err(MapError::Truncated);
    }
    let w = read_i32_le(bytes, 0);
    let h = read_i32_le(bytes, 4);
    if w < 0 || h < 0 {
        return Err(MapError::NegativeSize);
    }
    assert(0 <= w * h <= 0x4000_0000_0000_0000) by (nonlinear_arith)
        requires
            0 <= w <= 0x8000_0000,
            0 <= h <= 0x8000_0000,
    ;
    let wide: u128 = (w as u128) * (h as u128);
    assert(wide == interp_sample_count(bytes@));
    if ((bytes.len() - INTERP_HEADER_LEN) as u128) < 2 * wide {
        return Err(MapError::Truncated);
    }
    let count: usize = wide as usize;
    let mut values: Vec<u16> = Vec::new();
    let mut k: usize = 0;
    while k < count
        invariant
            count == interp_sample_count(bytes@),
            INTERP_HEADER_LEN + 2 * count <= bytes@.len(),
            bytes@.len() == bytes.len(),
            k <= count,
            values@.len() == k,
            forall|j: int|
                0 <= j < k ==> #[trigger] values@[j] == le_u16(bytes@, INTERP_HEADER_LEN + 2 * j),
        decreases count - k,
    {
        values.push(read_u16_le(bytes, INTERP_HEADER_LEN + 2 * k));
        k += 1;
    }
    Ok(InterpMap { width: w, height: h, values })
}

/// Reads both remap tables: the coordinate table first, then the
/// interpolation table; the first error stops the reading.
pub fn maps(first: &[u8], second: &[u8]) -> (r: Result<(CoordMap, InterpMap), MapError>)
    requires
        coord_channels_fit(first@),
    ensures
        coord_outcome(first@) is Err ==> r == Err::<(CoordMap, InterpMap), MapError>(
            coord_outcome(first@)->Err_0,
        ),
        coord_outcome(first@) is Ok && interp_outcome(second@) is Err ==> r == Err::<
            (CoordMap, InterpMap),
            MapError,
        >(interp_outcome(second@)->Err_0),
        coord_outcome(first@) is Ok && interp_outcome(second@) is Ok ==> r is Ok
            && coord_map_matches(r->Ok_0.0, first@) && interp_map_matches(r->Ok_0.1, second@),
{
    let a = load_first(first)?;
    let b = load_second(second)?;
    Ok((a, b))
}

/// Bytes after the last sample do not change what a coordinate table file
/// reads as.
pub proof fn lemma_coord_trailing_bytes_ignored(b: Seq<u8>, extra: Seq<u8>)
    requires
        coord_outcome(b) is Ok,
    ensures
        coord_outcome(b + extra) == coord_outcome(b),
        forall|k: int|
            0 <= k < coord_outcome(b)->Ok_0.3 ==> #[trigger] le_i16(b + extra, COORD_HEADER_LEN + 2 * k)
                == le_i16(b, COORD_HEADER_LEN + 2 * k),
{
    let c = b + extra;
    assert(c[0] == b[0] && c[1] == b[1] && c[2] == b[2] && c[3] == b[3]);
    assert(c[4] == b[4] && c[5] == b[5] && c[6] == b[6] && c[7] == b[7]);
    assert(c[8] == b[8] && c[9] == b[9] && c[10] == b[10] && c[11] == b[11]);
    assert(coord_sample_count(c) == coord_sample_count(b));
    assert forall|k: int| 0 <= k < coord_outcome(b)->Ok_0.3 implies #[trigger] le_i16(
        c,
        COORD_HEADER_LEN + 2 * k,
    ) == le_i16(b, COORD_HEADER_LEN + 2 * k) by {
        assert(c[COORD_HEADER_LEN + 2 * k] == b[COORD_HEADER_LEN + 2 * k]);
        assert(c[COORD_HEADER_LEN + 2 * k + 1] == b[COORD_HEADER_LEN + 2 * k + 1]);
    }
}

/// Bytes after the last sample do not change what an interpolation table
/// file reads as.
pub proof fn lemma_interp_trailing_bytes_ignored(b: Seq<u8>, extra: Seq<u8>)
    requires
        interp_outcome(b) is Ok,
    ensures
        interp_outcome(b + extra) == interp_outcome(b),
        forall|k: int|
            0 <= k < interp_outcome(b)->Ok_0.2 ==> #[trigger] le_u16(b + extra, INTERP_HEADER_LEN + 2 * k)
                == le_u16(b, INTERP_HEADER_LEN + 2 * k),
{
    let c = b + extra;
    assert(c[0] == b[0] && c[1] == b[1] && c[2] == b[2] && c[3] == b[3]);
    assert(c[4] == b[4] && c[5] == b[5] && c[6] == b[6] && c[7] == b[7]);
    assert(interp_sample_count(c) == interp_sample_count(b));
    assert forall|k: int| 0 <= k < interp_outcome(b)->Ok_0.2 implies #[trigger] le_u16(
        c,
        INTERP_HEADER_LEN + 2 * k,
    ) == le_u16(b, INTERP_HEADER_LEN + 2 * k) by {
        assert(c[INTERP_HEADER_LEN + 2 * k] == b[INTERP_HEADER_LEN + 2 * k]);
        assert(c[INTERP_HEADER_LEN + 2 * k + 1] == b[INTERP_HEADER_LEN + 2 * k + 1]);
    }
}

/// The names of the two remap table files for the path prefix `path`.
pub fn map_paths(path: &str) -> (r: (String, String))
    ensures
        r.0@ == path@ + "1.sex"@,
        r.1@ == path@ + "2.sex"@,
{
    let mut first = String::from_str(path);
    first.append("1.sex");
    let mut second = String::from_str(path);
    second.append("2.sex");
    (first, second)
}

} // verus!
