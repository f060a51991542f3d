//! GeoPackage geometry blobs holding WKB LineStrings and MultiLineStrings.
//!
//! Coordinates are kept as the IEEE-754 bit patterns of their `f64`
//! values, exactly as the blob stores them; a missing Z is the quiet NaN.

use vstd::prelude::*;

verus! {

/// The bit pattern of `f64::NAN`, used for a missing Z.
pub const NAN_BITS: u64 = 0x7ff8_0000_0000_0000;

/// Why a blob was refused.
#[derive(Debug, Clone, Copy, PartialEq, Eq, Structural)]
pub enum WkbError {
    /// Shorter than the header, or not starting with `GP`.
    InvalidHeader,
    UnsupportedVersion(u8),
    InvalidEnvelope(u8),
    TruncatedEnvelope,
    TrailingBytes,
    InvalidByteOrder(u8),
    Truncated,
    UnsupportedGeometryType(u32),
    CoordinateCountOverflow,
    TruncatedCoordinates,
}

/// The lines of a geometry blob and its spatial reference.
#[derive(Debug, Clone)]
pub struct GeoPackageGeometry {
    pub srs_id: i32,
    pub lines: Vec<Vec<[u64; 3]>>,
}

/// A point as plain values: x, y, z bit patterns.
pub type PointView = (u64, u64, u64);

pub open spec fn point_view(p: [u64; 3]) -> PointView {
    (p@[0], p@[1], p@[2])
}

pub open spec fn lines_view(lines: Seq<Vec<[u64; 3]>>) -> Seq<Seq<PointView>> {
    lines.map_values(|l: Vec<[u64; 3]>| l@.map_values(|p: [u64; 3]| point_view(p)))
}

// ---------------------------------------------------------------------------
// Byte order.
// ---------------------------------------------------------------------------
/// The unsigned value of `n` bytes at `p`, least significant first.
pub open spec fn le_value(b: Seq<u8>, p: int, n: nat) -> nat
    decreases n,
{
    if n == 0 {
        0
    } else {
        b[p] as nat + 256 * le_value(b, p + 1, (n - 1) as nat)
    }
}

/// The unsigned value of `n` bytes at `p`, most significant first.
pub open spec fn be_value(b: Seq<u8>, p: int, n: nat) -> nat
    decreases n,
{
    if n == 0 {
        0
    } else {
        b[p + n - 1] as nat + 256 * be_value(b, p, (n - 1) as nat)
    }
}

pub open spec fn uint_at(b: Seq<u8>, p: int, n: nat, little_endian: bool) -> nat {
    if little_endian {
        le_value(b, p, n)
    } else {
        be_value(b, p, n)
    }
}

/// `256` to the power `n`.
pub open spec fn byte_place(n: nat) -> nat
    decreases n,
{
    if n == 0 {
        1
    } else {
        256 * byte_place((n - 1) as nat)
    }
}

pub(crate) proof fn lemma_places()
    ensures
        byte_place(4) == 0x1_0000_0000,
        byte_place(8) == 0x1_0000_0000_0000_0000,
{
    reveal_with_fuel(byte_place, 9);
}

proof fn lemma_place_mono(k: nat, n: nat)
    requires
        k <= n,
    ensures
        byte_place(k) <= byte_place(n),
    decreases n,
{
    if k < n {
        lemma_place_mono(k, (n - 1) as nat);
    }
}

pub(crate) proof fn lemma_value_bound_pub(b: Seq<u8>, p: int, n: nat, little_endian: bool)
    ensures
        uint_at(b, p, n, little_endian) < byte_place(n),
{
    lemma_value_bound(b, p, n, little_endian);
}

proof fn lemma_value_bound(b: Seq<u8>, p: int, n: nat, little_endian: bool)
    ensures
        uint_at(b, p, n, little_endian) < byte_place(n),
    decreases n,
{
    if n > 0 {
        lemma_value_bound(b, p + 1, (n - 1) as nat, true);
        lemma_value_bound(b, p, (n - 1) as nat, false);
    }
}

/// Reads `n` bytes at `p` in the given byte order.
pub(crate) fn read_uint(b: &[u8], p: usize, n: usize, little_endian: bool) -> (r: u64)
    requires
        n <= 8,
        p + n <= b@.len(),
    ensures
        r as nat == uint_at(b@, p as int, n as nat, little_endian),
{
    proof {
        lemma_value_bound(b@, p as int, n as nat, little_endian);
        lemma_place_mono(n as nat, 8);
        lemma_places();
    }
    let blen = b.len();
    let mut value: u64 = 0;
    let mut k: usize = 0;
    while k < n
        invariant
            n <= 8,
            p + n <= b@.len(),
            b@.len() == blen,
            k <= n,
            value as nat == if little_endian {
                le_value(b@, p + n - k, k as nat)
            } else {
                be_value(b@, p as int, k as nat)
            },
            value < byte_place(k as nat),
            byte_place(n as nat) <= 0x1_0000_0000_0000_0000,
        decreases n - k,
    {
        proof {
            lemma_place_mono((k + 1) as nat, n as nat);
        }
        let byte = if little_endian {
            b[p + n - k - 1]
        } else {
            b[p + k]
        };
        proof {
            assert(value * 256 + byte < 256 * byte_place(k as nat)) by (nonlinear_arith)
                requires
                    value < byte_place(k as nat),
                    byte < 256,
            ;
        }
        value = value * 256 + byte as u64;
        k += 1;
    }
    value
}

// ---------------------------------------------------------------------------
// The cursor over WKB bytes.
// ---------------------------------------------------------------------------
/// A read position in a byte slice.
pub struct Cursor<'a> {
    pub bytes: &'a [u8],
    pub offset: usize,
}

impl<'a> Cursor<'a> {
    /// A cursor at the start of `bytes`.
    pub fn new(bytes: &'a [u8]) -> (r: Self)
        ensures
            r.bytes@ == bytes@,
            r.offset == 0,
    {
        Cursor { bytes, offset: 0 }
    }

    /// Bytes left after the read position (none when it is past the end).
    pub fn remaining(&self) -> (r: usize)
        ensures
            r == if self.offset <= self.bytes@.len() {
                self.bytes@.len() - self.offset
            } else {
                0
            },
    {
        if self.offset <= self.bytes.len() {
            self.bytes.len() - self.offset
        } else {
            0
        }
    }

    /// Reads one byte.
    pub fn read_u8(&mut self) -> (r: Result<u8, WkbError>)
        ensures
            final(self).bytes == old(self).bytes,
            old(self).offset < old(self).bytes@.len() ==> r == Ok::<u8, WkbError>(old(self).bytes@[old(self).offset as int])
                && final(self).offset == old(self).offset + 1,
            old(self).offset >= old(self).bytes@.len() ==> r == Err::<u8, WkbError>(WkbError::Truncated)
                && final(self).offset == old(self).offset,
    {
        if self.offset < self.bytes.len() {
            let value = self.bytes[self.offset];
            self.offset = self.offset + 1;
            Ok(value)
        } else {
            Err(WkbError::Truncated)
        }
    }

    /// Reads `N` bytes.
    pub fn read_array<const N: usize>(&mut self) -> (r: Result<[u8; N], WkbError>)
        ensures
            final(self).bytes == old(self).bytes,
            old(self).offset + N <= old(self).bytes@.len() ==> r is Ok && r->Ok_0@ == old(self).bytes@.subrange(
                old(self).offset as int,
                old(self).offset + N,
            ) && final(self).offset == old(self).offset + N,
            old(self).offset + N > old(self).bytes@.len() ==> r == Err::<[u8; N], WkbError>(WkbError::Truncated)
                && final(self).offset == old(self).offset,
    {
        if self.offset > self.bytes.len() || N > self.bytes.len() - self.offset {
            return Err(WkbError::Truncated);
        }
        let mut out: [u8; N] = vstd::array::array_fill_for_copy_types(0u8);
        let mut k: usize = 0;
        while k < N
            invariant
                self.offset + N <= self.bytes@.len(),
                self.bytes@.len() <= usize::MAX,
                k <= N,
                out@.len() == N,
                forall|j: int| 0 <= j < k ==> out@[j] == self.bytes@[self.offset + j],
            decreases N - k,
        {
            out.set(k, self.bytes[self.offset + k]);
            k += 1;
        }
        proof {
            assert(out@ =~= self.bytes@.subrange(self.offset as int, self.offset + N));
        }
        self.offset = self.offset + N;
        Ok(out)
    }

    /// Reads a `u32` in the given byte order.
    pub fn read_u32(&mut self, little_endian: bool) -> (r: Result<u32, WkbError>)
        ensures
            final(self).bytes == old(self).bytes,
            old(self).offset + 4 <= old(self).bytes@.len() ==> r is Ok && r->Ok_0 as nat == uint_at(
                old(self).bytes@,
                old(self).offset as int,
                4,
                little_endian,
            ) && final(self).offset == old(self).offset + 4,
            old(self).offset + 4 > old(self).bytes@.len() ==> r == Err::<u32, WkbError>(WkbError::Truncated)
                && final(self).offset == old(self).offset,
    {
        if self.offset > self.bytes.len() || 4 > self.bytes.len() - self.offset {
            return Err(WkbError::Truncated);
        }
        let v = read_uint(self.bytes, self.offset, 4, little_endian);
        proof {
            lemma_value_bound(self.bytes@, self.offset as int, 4, little_endian);
            lemma_places();
        }
        self.offset = self.offset + 4;
        Ok(v as u32)
    }

    /// Reads the bit pattern of an `f64` in the given byte order.
    pub fn read_f64_bits(&mut self, little_endian: bool) -> (r: Result<u64, WkbError>)
        ensures
            final(self).bytes == old(self).bytes,
            old(self).offset + 8 <= old(self).bytes@.len() ==> r is Ok && r->Ok_0 as nat == uint_at(
                old(self).bytes@,
                old(self).offset as int,
                8,
                little_endian,
            ) && final(self).offset == old(self).offset + 8,
            old(self).offset + 8 > old(self).bytes@.len() ==> r == Err::<u64, WkbError>(WkbError::Truncated)
                && final(self).offset == old(self).offset,
    {
        if self.offset > self.bytes.len() || 8 > self.bytes.len() - self.offset {
            return Err(WkbError::Truncated);
        }
        let v = read_uint(self.bytes, self.offset, 8, little_endian);
        self.offset = self.offset + 8;
        Ok(v)
    }
}

/// The `i32` stored at `p` (4 bytes, two's complement).
pub open spec fn i32_at(b: Seq<u8>, p: int, little_endian: bool) -> i32 {
    (uint_at(b, p, 4, little_endian) as u32) as i32
}

/// Reads an `i32` from the first four bytes of `bytes`.
pub fn read_i32(bytes: &[u8], little_endian: bool) -> (r: i32)
    requires
        bytes@.len() >= 4,
    ensures
        r == i32_at(bytes@, 0, little_endian),
{
    let v = read_uint(bytes, 0, 4, little_endian);
    proof {
        lemma_value_bound(bytes@, 0, 4, little_endian);
        lemma_places();
    }
    (v as u32) as i32
}

// ---------------------------------------------------------------------------
// Geometry grammar.
// ---------------------------------------------------------------------------
/// Base type, Z, M and SRID flags of a WKB type code, ISO (`1000`,
/// `2000`, `3000` offsets) or EWKB (high flag bits).
pub open spec fn dimensions_of(raw: u32) -> (u32, bool, bool, bool) {
    let ewkb_z = raw & 0x8000_0000 != 0;
    let ewkb_m = raw & 0x4000_0000 != 0;
    let has_srid = raw & 0x2000_0000 != 0;
    let t = raw & 0x0fff_ffff;
    if t >= 3000 {
        ((t - 3000) as u32, true, true, has_srid)
    } else if t >= 2000 {
        ((t - 2000) as u32, ewkb_z, true, has_srid)
    } else if t >= 1000 {
        ((t - 1000) as u32, true, ewkb_m, has_srid)
    } else {
        (t, ewkb_z, ewkb_m, has_srid)
    }
}

/// Splits a WKB type code into base type and Z, M and SRID flags.
pub fn dimensions(raw_type: u32) -> (r: (u32, bool, bool, bool))
    ensures
        r == dimensions_of(raw_type),
{
    let ewkb_z = raw_type & 0x8000_0000 != 0;
    let ewkb_m = raw_type & 0x4000_0000 != 0;
    let has_srid = raw_type & 0x2000_0000 != 0;
    let t = raw_type & 0x0fff_ffff;
    if t >= 3000 {
        (t - 3000, true, true, has_srid)
    } else if t >= 2000 {
        (t - 2000, ewkb_z, true, has_srid)
    } else if t >= 1000 {
        (t - 1000, true, ewkb_m, has_srid)
    } else {
        (t, ewkb_z, ewkb_m, has_srid)
    }
}

/// Bytes per point: two, three or four `f64` ordinates.
pub open spec fn stride_of(z: bool, m: bool) -> int {
    (2 + (if z {
        1int
    } else {
        0int
    }) + (if m {
        1int
    } else {
        0int
    })) * 8
}

/// The `count` points stored from `start`.
pub open spec fn line_points(b: Seq<u8>, start: int, count: nat, le: bool, z: bool, m: bool) -> Seq<PointView> {
    Seq::new(
        count,
        |k: int|
            {
                let base = start + k * stride_of(z, m);
                (
                    uint_at(b, base, 8, le) as u64,
                    uint_at(b, base + 8, 8, le) as u64,
                    if z {
                        uint_at(b, base + 16, 8, le) as u64
                    } else {
                        NAN_BITS
                    },
                )
            },
    )
}

/// A LineString body at `pos`: its points and the position after it.
pub open spec fn line_spec(b: Seq<u8>, pos: int, le: bool, z: bool, m: bool) -> Result<(Seq<PointView>, int), WkbError> {
    if pos + 4 > b.len() {
        Err(WkbError::Truncated)
    } else {
        let count = uint_at(b, pos, 4, le);
        let size = count * stride_of(z, m);
        if size > usize::MAX {
            Err(WkbError::CoordinateCountOverflow)
        } else if size > b.len() - (pos + 4) {
            Err(WkbError::TruncatedCoordinates)
        } else {
            Ok((line_points(b, pos + 4, count, le, z, m), pos + 4 + size))
        }
    }
}

/// A geometry at `pos`: its lines and the position after it.
pub open spec fn geometry_spec(b: Seq<u8>, pos: int) -> Result<(Seq<Seq<PointView>>, int), WkbError>
    decreases b.len() - pos, 0nat,
{
    if pos < 0 || pos >= b.len() {
        Err(WkbError::Truncated)
    } else if b[pos] > 1 {
        Err(WkbError::InvalidByteOrder(b[pos]))
    } else if pos + 5 > b.len() {
        Err(WkbError::Truncated)
    } else {
        let le = b[pos] == 1;
        let (t, z, m, srid) = dimensions_of(uint_at(b, pos + 1, 4, le) as u32);
        let p = if srid {
            pos + 9
        } else {
            pos + 5
        };
        if p > b.len() {
            Err(WkbError::Truncated)
        } else if t == 2 {
            match line_spec(b, p, le, z, m) {
                Ok((points, q)) => Ok((seq![points], q)),
                Err(e) => Err(e),
            }
        } else if t == 5 {
            if p + 4 > b.len() {
                Err(WkbError::Truncated)
            } else {
                children_spec(b, p + 4, uint_at(b, p, 4, le))
            }
        } else {
            Err(WkbError::UnsupportedGeometryType(t))
        }
    }
}

/// `count` geometries in a row from `pos`, their lines joined.
pub open spec fn children_spec(b: Seq<u8>, pos: int, count: nat) -> Result<(Seq<Seq<PointView>>, int), WkbError>
    decreases b.len() - pos, 1nat,
{
    if count == 0 {
        if pos <= b.len() {
            Ok((seq![], pos))
        } else {
            Err(WkbError::Truncated)
        }
    } else if pos > b.len() {
        Err(WkbError::Truncated)
    } else {
        match geometry_spec(b, pos) {
            Err(e) => Err(e),
            Ok((lines, q)) => if q <= pos || q > b.len() {
                Err(WkbError::Truncated)
            } else {
                match children_spec(b, q, (count - 1) as nat) {
                    Err(e) => Err(e),
                    Ok((rest, r)) => Ok((lines + rest, r)),
                }
            },
        }
    }
}

/// Appends `acc` before the lines of a result.
pub open spec fn prepend(acc: Seq<Seq<PointView>>, r: Result<(Seq<Seq<PointView>>, int), WkbError>) -> Result<
    (Seq<Seq<PointView>>, int),
    WkbError,
> {
    match r {
        Ok((lines, q)) => Ok((acc + lines, q)),
        Err(e) => Err(e),
    }
}

/// Reads a LineString body at the cursor.
fn parse_line_string(cursor: &mut Cursor, little_endian: bool, has_z: bool, has_m: bool) -> (r: Result<Vec<[u64; 3]>, WkbError>)
    ensures
        final(cursor).bytes == old(cursor).bytes,
        match line_spec(old(cursor).bytes@, old(cursor).offset as int, little_endian, has_z, has_m) {
            Ok((points, q)) => r is Ok && r->Ok_0@.map_values(|p: [u64; 3]| point_view(p)) == points
                && final(cursor).offset == q,
            Err(e) => r == Err::<Vec<[u64; 3]>, WkbError>(e),
        },
{
    let ghost b = cursor.bytes@;
    let ghost start = cursor.offset as int;
    let count = match cursor.read_u32(little_endian) {
        Ok(c) => c,
        Err(e) => {
            return Err(e);
        },
    };
    let dims: u64 = 2 + (if has_z {
        1
    } else {
        0
    }) + (if has_m {
        1
    } else {
        0
    });
    proof {
        assert((count as u64) * dims * 8 <= 0x20_0000_0000) by (nonlinear_arith)
            requires
                count <= u32::MAX,
                dims <= 4,
        ;
        assert((count as u64) * dims <= 0x4_0000_0000) by (nonlinear_arith)
            requires
                count <= u32::MAX,
                dims <= 4,
        ;
    }
    let size: u64 = (count as u64) * dims * 8;
    proof {
        assert(dims * 8 == stride_of(has_z, has_m));
        assert(size == count * stride_of(has_z, has_m)) by (nonlinear_arith)
            requires
                size == (count as u64) * dims * 8,
                dims * 8 == stride_of(has_z, has_m),
        ;
    }
    if size > usize::MAX as u64 {
        return Err(WkbError::CoordinateCountOverflow);
    }
    if size as usize > cursor.remaining() {
        return Err(WkbError::TruncatedCoordinates);
    }
    let ghost first = cursor.offset as int;
    let ghost stride = stride_of(has_z, has_m);
    let mut points: Vec<[u64; 3]> = Vec::new();
    let mut k: u32 = 0;
    while k < count
        invariant
            cursor.bytes@ == b,
            first == start + 4,
            stride == stride_of(has_z, has_m),
            first + count * stride <= b.len(),
            k <= count,
            cursor.offset == first + k * stride,
            points@.map_values(|p: [u64; 3]| point_view(p)) == line_points(b, first, count as nat, little_endian, has_z, has_m).take(k as int),
        decreases count - k,
    {
        proof {
            assert(first + (k + 1) * stride <= first + count * stride) by (nonlinear_arith)
                requires
                    k + 1 <= count,
                    stride >= 0,
            ;
            assert((k + 1) * stride == k * stride + stride) by (nonlinear_arith);
        }
        let x = match cursor.read_f64_bits(little_endian) {
            Ok(v) => v,
            Err(e) => {
                return Err(e);
            },
        };
        let y = match cursor.read_f64_bits(little_endian) {
            Ok(v) => v,
            Err(e) => {
                return Err(e);
            },
        };
        let z = if has_z {
            match cursor.read_f64_bits(little_endian) {
                Ok(v) => v,
                Err(e) => {
                    return Err(e);
                },
            }
        } else {
            NAN_BITS
        };
        if has_m {
            match cursor.read_f64_bits(little_endian) {
                Ok(_) => {},
                Err(e) => {
                    return Err(e);
                },
            }
        }
        let point: [u64; 3] = [x, y, z];
        let ghost before = points@;
        points.push(point);
        proof {
            let lp = line_points(b, first, count as nat, little_endian, has_z, has_m);
            assert(point_view(point) == lp[k as int]);
            assert(points@.map_values(|p: [u64; 3]| point_view(p)) =~= before.map_values(|p: [u64; 3]| point_view(p)).push(
                point_view(point),
            ));
            assert(lp.take(k + 1) =~= lp.take(k as int).push(lp[k as int]));
        }
        k += 1;
    }
    proof {
        let lp = line_points(b, first, count as nat, little_endian, has_z, has_m);
        assert(lp.take(count as int) =~= lp);
    }
    Ok(points)
}

proof fn lemma_lines_view_add(a: Seq<Vec<[u64; 3]>>, b: Seq<Vec<[u64; 3]>>)
    ensures
        lines_view(a + b) == lines_view(a) + lines_view(b),
{
    assert(lines_view(a + b) =~= lines_view(a) + lines_view(b));
}

/// Reads a LineString or MultiLineString at the cursor.
fn parse_wkb_geometry(cursor: &mut Cursor) -> (r: Result<Vec<Vec<[u64; 3]>>, WkbError>)
    requires
        old(cursor).offset <= old(cursor).bytes@.len(),
    ensures
        final(cursor).bytes == old(cursor).bytes,
        match geometry_spec(old(cursor).bytes@, old(cursor).offset as int) {
            Ok((lines, q)) => r is Ok && lines_view(r->Ok_0@) == lines && final(cursor).offset == q && old(
                cursor,
            ).offset < q <= old(cursor).bytes@.len(),
            Err(e) => r == Err::<Vec<Vec<[u64; 3]>>, WkbError>(e),
        },
    decreases old(cursor).bytes@.len() - old(cursor).offset,
{
    let ghost b = cursor.bytes@;
    let ghost pos = cursor.offset as int;
    let order = match cursor.read_u8() {
        Ok(v) => v,
        Err(e) => {
            return Err(e);
        },
    };
    let little_endian = if order == 0 {
        false
    } else if order == 1 {
        true
    } else {
        return Err(WkbError::InvalidByteOrder(order));
    };
    let raw = match cursor.read_u32(little_endian) {
        Ok(v) => v,
        Err(e) => {
            return Err(e);
        },
    };
    let (base_type, has_z, has_m, has_srid) = dimensions(raw);
    if has_srid {
        match cursor.read_u32(little_endian) {
            Ok(_) => {},
            Err(e) => {
                return Err(e);
            },
        }
    }
    let ghost p = cursor.offset as int;
    if base_type == 2 {
        match parse_line_string(cursor, little_endian, has_z, has_m) {
            Ok(points) => {
                let mut lines: Vec<Vec<[u64; 3]>> = Vec::new();
                lines.push(points);
                proof {
                    assert(lines_view(lines@) =~= seq![points@.map_values(|q: [u64; 3]| point_view(q))]);
                }
                Ok(lines)
            },
            Err(e) => Err(e),
        }
    } else if base_type == 5 {
        let count = match cursor.read_u32(little_endian) {
            Ok(c) => c,
            Err(e) => {
                return Err(e);
            },
        };
        let ghost first = cursor.offset as int;
        let mut lines: Vec<Vec<[u64; 3]>> = Vec::new();
        let mut k: u32 = 0;
        proof {
            assert(lines_view(lines@) =~= Seq::<Seq<PointView>>::empty());
            assert(prepend(Seq::<Seq<PointView>>::empty(), children_spec(b, first, count as nat)) == children_spec(
                b,
                first,
                count as nat,
            )) by {
                match children_spec(b, first, count as nat) {
                    Ok((l, q)) => {
                        assert(Seq::<Seq<PointView>>::empty() + l =~= l);
                    },
                    Err(_) => {},
                }
            }
        }
        while k < count
            invariant
                cursor.bytes == old(cursor).bytes,
                cursor.bytes@ == b,
                old(cursor).bytes@ == b,
                old(cursor).offset == pos,
                pos < first <= cursor.offset <= b.len(),
                k <= count,
                geometry_spec(b, pos) == children_spec(b, first, count as nat),
                children_spec(b, first, count as nat) == prepend(
                    lines_view(lines@),
                    children_spec(b, cursor.offset as int, (count - k) as nat),
                ),
            decreases count - k,
        {
            let ghost cur = cursor.offset as int;
            let ghost acc = lines_view(lines@);
            assert(cursor.bytes@.len() - cursor.offset < old(cursor).bytes@.len() - old(cursor).offset);
            let mut child = match parse_wkb_geometry(cursor) {
                Ok(c) => c,
                Err(e) => {
                    return Err(e);
                },
            };
            let ghost childv = lines_view(child@);
            let ghost before = lines@;
            lines.append(&mut child);
            proof {
                lemma_lines_view_add(before, child@);
                let rest = children_spec(b, cursor.offset as int, (count - k - 1) as nat);
                assert(children_spec(b, cur, (count - k) as nat) == prepend(childv, rest));
                match rest {
                    Ok((l, q)) => {
                        assert(acc + (childv + l) =~= (acc + childv) + l);
                    },
                    Err(_) => {},
                }
                assert(prepend(acc, prepend(childv, rest)) == prepend(acc + childv, rest));
                assert(lines_view(lines@) == acc + childv);
                assert(children_spec(b, first, count as nat) == prepend(lines_view(lines@), rest));
            }
            k += 1;
        }
        proof {
            assert(lines_view(lines@) + Seq::<Seq<PointView>>::empty() =~= lines_view(lines@));
        }
        Ok(lines)
    } else {
        Err(WkbError::UnsupportedGeometryType(base_type))
    }
}

/// What a GeoPackage geometry blob holds: its SRS id and its lines.
pub open spec fn geopackage_spec(b: Seq<u8>) -> Result<(i32, Seq<Seq<PointView>>), WkbError> {
    if b.len() < 8 || b[0] != 71 || b[1] != 80 {
        Err(WkbError::InvalidHeader)
    } else if b[2] != 0 {
        Err(WkbError::UnsupportedVersion(b[2]))
    } else {
        let flags = b[3];
        let little_endian = flags & 1 != 0;
        let empty = flags & 0x10 != 0;
        let code = (flags >> 1) & 0x07;
        let envelope: int = if code == 0 {
            0
        } else if code == 1 {
            32
        } else if code == 2 || code == 3 {
            48
        } else if code == 4 {
            64
        } else {
            -1
        };
        if envelope < 0 {
            Err(WkbError::InvalidEnvelope(code))
        } else if b.len() < 8 + envelope {
            Err(WkbError::TruncatedEnvelope)
        } else if empty {
            Ok((i32_at(b, 4, little_endian), seq![]))
        } else {
            let body = b.subrange(8 + envelope, b.len() as int);
            match geometry_spec(body, 0) {
                Err(e) => Err(e),
                Ok((lines, q)) => if q != body.len() {
                    Err(WkbError::TrailingBytes)
                } else {
                    Ok((i32_at(b, 4, little_endian), lines))
                },
            }
        }
    }
}

/// Parses a GeoPackage geometry blob holding a (multi) line string: the
/// `GP` header, its optional envelope, then the WKB body, which must be
/// used up exactly.
pub fn parse_geopackage_lines(blob: &[u8]) -> (r: Result<GeoPackageGeometry, WkbError>)
    ensures
        match geopackage_spec(blob@) {
            Ok((srs, lines)) => r is Ok && r->Ok_0.srs_id == srs && lines_view(r->Ok_0.lines@) == lines,
            Err(e) => r == Err::<GeoPackageGeometry, WkbError>(e),
        },
{
    let len = blob.len();
    if len < 8 || blob[0] != 71 || blob[1] != 80 {
        return Err(WkbError::InvalidHeader);
    }
    if blob[2] != 0 {
        return Err(WkbError::UnsupportedVersion(blob[2]));
    }
    let flags = blob[3];
    let little_endian = flags & 1 != 0;
    let empty = flags & 0x10 != 0;
    let code = (flags >> 1) & 0x07;
    let envelope: usize = if code == 0 {
        0
    } else if code == 1 {
        32
    } else if code == 2 || code == 3 {
        48
    } else if code == 4 {
        64
    } else {
        return Err(WkbError::InvalidEnvelope(code));
    };
    if len < 8 + envelope {
        return Err(WkbError::TruncatedEnvelope);
    }
    let srs_id = read_i32(vstd::slice::slice_subrange(blob, 4, 8), little_endian);
    proof {
        assert(blob@.subrange(4, 8).subrange(0, 4) =~= blob@.subrange(4, 8));
        lemma_uint_at_shift(blob@, 4);
    }
    if empty {
        proof {
            assert(lines_view(Seq::<Vec<[u64; 3]>>::empty()) =~= Seq::<Seq<PointView>>::empty());
        }
        return Ok(GeoPackageGeometry { srs_id, lines: Vec::new() });
    }
    let body = vstd::slice::slice_subrange(blob, 8 + envelope, len);
    let mut cursor = Cursor::new(body);
    let lines = match parse_wkb_geometry(&mut cursor) {
        Ok(l) => l,
        Err(e) => {
            return Err(e);
        },
    };
    if cursor.remaining() != 0 {
        return Err(WkbError::TrailingBytes);
    }
    Ok(GeoPackageGeometry { srs_id, lines })
}

proof fn lemma_uint_at_shift(b: Seq<u8>, p: int)
    requires
        0 <= p,
        p + 4 <= b.len(),
    ensures
        uint_at(b.subrange(p, p + 4), 0, 4, true) == uint_at(b, p, 4, true),
        uint_at(b.subrange(p, p + 4), 0, 4, false) == uint_at(b, p, 4, false),
{
    let s = b.subrange(p, p + 4);
    reveal_with_fuel(le_value, 5);
    reveal_with_fuel(be_value, 5);
    assert(s[0] == b[p] && s[1] == b[p + 1] && s[2] == b[p + 2] && s[3] == b[p + 3]);
}


/// A WKB type word with a Z coordinate: the EWKB flag, or an ISO type in
/// the thousands.
pub open spec fn wkb_has_z(raw: u32) -> bool {
    raw & 0x8000_0000u32 != 0 || (raw & !0x2000_0000u32) / 1000 == 1
}

/// The geometry kind of a WKB type word, flags and dimensions removed.
pub open spec fn wkb_base_type(raw: u32) -> u32 {
    (raw & 0x0FFF_FFFFu32) % 1000
}

/// The position of the point count: after the type word, and after an
/// EWKB SRID when the word says there is one.
pub open spec fn wkb_count_at(raw: u32) -> int {
    if raw & 0x2000_0000u32 != 0 {
        9
    } else {
        5
    }
}

/// The bytes between the starts of two points.
pub open spec fn wkb_stride(raw: u32) -> int {
    if wkb_has_z(raw) {
        24
    } else {
        16
    }
}

/// The plain WKB line string in `b`, as the bit patterns of each point's
/// longitude and latitude: `None` unless the byte order is known, the type
/// is a line string and every point's two coordinates are present.
pub open spec fn wkb_linestring_spec(b: Seq<u8>) -> Option<Seq<(u64, u64)>> {
    if b.len() < 5 || (b[0] != 0 && b[0] != 1) {
        None
    } else {
        let le = b[0] == 1;
        let raw = uint_at(b, 1, 4, le) as u32;
        let off = wkb_count_at(raw);
        if wkb_base_type(raw) != 2 || off + 4 > b.len() {
            None
        } else {
            let count = uint_at(b, off, 4, le);
            let first = off + 4;
            let stride = wkb_stride(raw);
            if count > 0 && first + (count - 1) * stride + 16 > b.len() {
                None
            } else {
                Some(
                    Seq::new(
                        count,
                        |i: int|
                            (
                                uint_at(b, first + i * stride, 8, le) as u64,
                                uint_at(b, first + i * stride + 8, 8, le) as u64,
                            ),
                    ),
                )
            }
        }
    }
}

/// Parses a plain WKB line string into the bit patterns of its points'
/// longitudes and latitudes; `None` for another geometry, an unknown byte
/// order or missing bytes.
pub fn parse_wkb_linestring(bytes: &[u8]) -> (r: Option<Vec<(u64, u64)>>)
    ensures
        match r {
            Some(points) => wkb_linestring_spec(bytes@) == Some(points@),
            None => wkb_linestring_spec(bytes@) is None,
        },
{
    if bytes.len() < 5 || (bytes[0] != 0 && bytes[0] != 1) {
        return None;
    }
    let little_endian = bytes[0] == 1;
    let mut cursor = Cursor { bytes, offset: 1 };
    let raw = match cursor.read_u32(little_endian) {
        Ok(v) => v,
        Err(_) => {
            return None;
        },
    };
    let has_z = raw & 0x8000_0000u32 != 0 || (raw & !0x2000_0000u32) / 1000 == 1;
    if (raw & 0x0FFF_FFFFu32) % 1000 != 2 {
        return None;
    }
    let offset: usize = if raw & 0x2000_0000u32 != 0 {
        9
    } else {
        5
    };
    let mut count_cursor = Cursor { bytes, offset };
    let count = match count_cursor.read_u32(little_endian) {
        Ok(v) => v,
        Err(_) => {
            return None;
        },
    };
    let stride: usize = if has_z {
        24
    } else {
        16
    };
    let first = offset + 4;
    let ghost b = bytes@;
    let mut points: Vec<(u64, u64)> = Vec::new();
    let mut at: usize = first;
    let mut i: u32 = 0;
    while i < count
        invariant
            b == bytes@,
            b.len() >= 5,
            b[0] == 0 || b[0] == 1,
            wkb_base_type(raw) == 2,
            offset as int == wkb_count_at(raw),
            offset + 4 <= b.len(),
            first == wkb_count_at(raw) + 4,
            stride == wkb_stride(raw),
            count as nat == uint_at(b, offset as int, 4, little_endian),
            raw as nat == uint_at(b, 1, 4, little_endian),
            little_endian == (b[0] == 1),
            i <= count,
            at == first + i * stride,
            at <= b.len() + 24,
            i > 0 ==> first + (i - 1) * stride + 16 <= b.len(),
            points@.len() == i,
            forall|j: int|
                0 <= j < i ==> #[trigger] points@[j] == (
                    uint_at(b, first + j * stride, 8, little_endian) as u64,
                    uint_at(b, first + j * stride + 8, 8, little_endian) as u64,
                ),
        decreases count - i,
    {
        let mut point_cursor = Cursor { bytes, offset: at };
        let lon = match point_cursor.read_f64_bits(little_endian) {
            Ok(v) => v,
            Err(_) => {
                proof {
                    assert((count - 1) * stride >= i * stride) by (nonlinear_arith)
                        requires
                            i <= count - 1,
                            stride >= 0,
                    ;
                }
                return None;
            },
        };
        let lat = match point_cursor.read_f64_bits(little_endian) {
            Ok(v) => v,
            Err(_) => {
                proof {
                    assert((count - 1) * stride >= i * stride) by (nonlinear_arith)
                        requires
                            i <= count - 1,
                            stride >= 0,
                    ;
                }
                return None;
            },
        };
        points.push((lon, lat));
        proof {
            assert(at + 16 <= b.len());
            assert(first + (i + 1) * stride == first + i * stride + stride) by (nonlinear_arith);
            assert(first + ((i + 1) - 1) * stride == first + i * stride);
        }
        at = at + stride;
        i += 1;
    }
    proof {
        if count > 0 {
            assert(first + (count - 1) * stride == first + count * stride - stride) by (nonlinear_arith);
        }
        let le = b[0] == 1;
        let rw = uint_at(b, 1, 4, le) as u32;
        assert(rw == raw);
        assert(!(count > 0 && first + (count - 1) * stride + 16 > b.len()));
        assert(wkb_linestring_spec(b) is Some);
        assert(points@ =~= wkb_linestring_spec(b)->0);
    }
    Some(points)
}

} // verus!
