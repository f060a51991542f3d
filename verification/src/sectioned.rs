//! The sectioned bundle format: an 8-byte magic followed by sections, each
//! a `u64` little-endian byte length and its payload. Large primitive
//! arrays are stored as raw little-endian sections.
//!
//! Writing builds the file in memory; reading walks a byte slice. A read
//! gives back, section by section, exactly what was written.

use vstd::prelude::*;

use crate::graph::{EdgeId, NodeId, RoutingEdge, TopologyNode};
use crate::wkb::{byte_place, le_value};

verus! {

/// The magic every current bundle starts with: `NWSECB05`.
pub const CURRENT_MAGIC: [u8; 8] = [78, 87, 83, 69, 67, 66, 48, 53];

/// Length of the magic.
pub const MAGIC_LEN: usize = 8;

/// Sentinel for an edge without a temporal rule in its raw column.
pub const NO_TEMPORAL_RULE: u32 = 4294967295;

/// Why bundle bytes were refused.
#[derive(Debug, Clone, Copy, PartialEq, Eq, Structural)]
pub enum SectionError {
    /// The bytes do not start with the current magic: re-import the
    /// dataset and recompile profiles.
    UnsupportedFormat,
    /// Fewer than eight bytes left for a section length.
    MissingSectionLength,
    /// A section that extends past the end of the bytes.
    SectionPastEnd,
    /// A raw section whose length is not a multiple of its element size.
    RaggedRawSection,
    /// Columns of one table with different lengths.
    InconsistentLengths,
}

/// The message for bytes in an unsupported format.
pub fn unsupported_format_error(path: &str) -> (r: String)
    ensures
        r@ == "bundle "@ + path@ + " uses an unsupported format; re-import the dataset and recompile profiles"@,
{
    let mut out = crate::text::chars_of("bundle ");
    let mut p = crate::text::chars_of(path);
    let mut tail = crate::text::chars_of(
        " uses an unsupported format; re-import the dataset and recompile profiles",
    );
    let ghost a = out@;
    let ghost b = p@;
    let ghost c = tail@;
    out.append(&mut p);
    out.append(&mut tail);
    proof {
        assert(out@ =~= a + b + c);
    }
    crate::text::string_from_chars(&out)
}

// ---------------------------------------------------------------------------
// Little-endian words.
// ---------------------------------------------------------------------------
/// The `n` least significant bytes of `v`, least significant first.
pub open spec fn le_bytes(v: nat, n: nat) -> Seq<u8>
    decreases n,
{
    if n == 0 {
        seq![]
    } else {
        seq![(v % 256) as u8] + le_bytes(v / 256, (n - 1) as nat)
    }
}

proof fn lemma_le_round_trip(v: nat, n: nat, rest: Seq<u8>)
    requires
        v < byte_place(n),
    ensures
        le_bytes(v, n).len() == n,
        le_value(le_bytes(v, n) + rest, 0, n) == v,
    decreases n,
{
    if n > 0 {
        let tail = le_bytes(v / 256, (n - 1) as nat);
        lemma_le_round_trip(v / 256, (n - 1) as nat, rest);
        let whole = le_bytes(v, n) + rest;
        assert(whole == seq![(v % 256) as u8] + (tail + rest));
        lemma_le_value_shift(tail + rest, seq![(v % 256) as u8], (n - 1) as nat);
        assert(whole[0] == (v % 256) as u8);
    }
}

proof fn lemma_le_value_shift(s: Seq<u8>, pre: Seq<u8>, n: nat)
    requires
        pre.len() == 1,
        n <= s.len(),
    ensures
        le_value(pre + s, 1, n) == le_value(s, 0, n),
    decreases n,
{
    if n > 0 {
        lemma_le_value_shift_at(s, pre, 0, n);
    }
}

proof fn lemma_le_value_shift_at(s: Seq<u8>, pre: Seq<u8>, p: int, n: nat)
    requires
        pre.len() == 1,
        p >= 0,
        p + n <= s.len(),
    ensures
        le_value(pre + s, p + 1, n) == le_value(s, p, n),
    decreases n,
{
    if n > 0 {
        lemma_le_value_shift_at(s, pre, p + 1, (n - 1) as nat);
        assert((pre + s)[p + 1] == s[p]);
    }
}

/// `le_value` reads the same bytes at an offset into a longer sequence.
proof fn lemma_le_value_offset(pre: Seq<u8>, s: Seq<u8>, n: nat)
    requires
        n <= s.len(),
    ensures
        le_value(pre + s, pre.len() as int, n) == le_value(s, 0, n),
    decreases pre.len(),
{
    if pre.len() > 0 {
        let first = pre.subrange(0, 1);
        let others = pre.subrange(1, pre.len() as int);
        assert(pre + s == first + (others + s));
        lemma_le_value_offset(others, s, n);
        lemma_le_value_shift_at(others + s, first, others.len() as int, n);
    }
}

/// Appends the `n` least significant bytes of `v`, least significant first.
fn push_le_bytes(out: &mut Vec<u8>, v: u64, n: usize)
    ensures
        final(out)@ == old(out)@ + le_bytes(v as nat, n as nat),
{
    let ghost start = out@;
    let mut rest: u64 = v;
    let mut k: usize = 0;
    while k < n
        invariant
            k <= n,
            out@ + le_bytes(rest as nat, (n - k) as nat) == start + le_bytes(v as nat, n as nat),
        decreases n - k,
    {
        proof {
            assert(le_bytes(rest as nat, (n - k) as nat) == seq![(rest % 256) as u8] + le_bytes(
                (rest / 256) as nat,
                (n - k - 1) as nat,
            ));
        }
        let ghost before = out@;
        out.push((rest % 256) as u8);
        proof {
            assert(out@ + le_bytes((rest / 256) as nat, (n - k - 1) as nat) =~= before + (seq![(rest % 256) as u8] + le_bytes(
                (rest / 256) as nat,
                (n - k - 1) as nat,
            )));
        }
        rest = rest / 256;
        k += 1;
    }
    proof {
        assert(out@ + Seq::<u8>::empty() =~= out@);
    }
}

// ---------------------------------------------------------------------------
// Writing.
// ---------------------------------------------------------------------------
/// One framed section: length prefix and payload.
pub open spec fn framed(payload: Seq<u8>) -> Seq<u8> {
    le_bytes(payload.len(), 8) + payload
}

/// Builds a bundle in memory.
pub struct SectionWriter {
    pub bytes: Vec<u8>,
}

impl SectionWriter {
    /// A bundle holding the magic alone.
    pub fn new() -> (r: Self)
        ensures
            r.bytes@ == CURRENT_MAGIC@,
    {
        let mut bytes: Vec<u8> = Vec::new();
        let mut k: usize = 0;
        while k < MAGIC_LEN
            invariant
                k <= MAGIC_LEN,
                bytes@ == CURRENT_MAGIC@.take(k as int),
            decreases MAGIC_LEN - k,
        {
            bytes.push(CURRENT_MAGIC[k]);
            proof {
                assert(CURRENT_MAGIC@.take(k + 1) =~= CURRENT_MAGIC@.take(k as int).push(CURRENT_MAGIC@[k as int]));
            }
            k += 1;
        }
        proof {
            assert(CURRENT_MAGIC@.take(8) =~= CURRENT_MAGIC@);
        }
        SectionWriter { bytes }
    }

    /// Appends one section.
    pub fn write_section(&mut self, payload: &[u8])
        ensures
            final(self).bytes@ == old(self).bytes@ + framed(payload@),
    {
        let n = payload.len();
        let ghost before = self.bytes@;
        let ghost pre = le_bytes(n as nat, 8);
        push_le_bytes(&mut self.bytes, n as u64, 8);
        let mut k: usize = 0;
        while k < n
            invariant
                n == payload@.len(),
                k <= n,
                self.bytes@ == before + pre + payload@.take(k as int),
            decreases n - k,
        {
            self.bytes.push(payload[k]);
            proof {
                assert(payload@.take(k + 1) =~= payload@.take(k as int).push(payload@[k as int]));
                assert(self.bytes@ =~= before + pre + payload@.take(k + 1));
            }
            k += 1;
        }
        proof {
            assert(payload@.take(n as int) =~= payload@);
            assert(self.bytes@ =~= before + (pre + payload@));
        }
    }

    /// The finished bundle bytes.
    pub fn finish(self) -> (r: Vec<u8>)
        ensures
            r@ == self.bytes@,
    {
        self.bytes
    }
}

// ---------------------------------------------------------------------------
// Reading.
// ---------------------------------------------------------------------------
/// What reading a section at `offset` gives: its payload and the offset
/// after it.
pub open spec fn section_at(b: Seq<u8>, offset: int) -> Result<(Seq<u8>, int), SectionError> {
    if offset + 8 > b.len() {
        Err(SectionError::MissingSectionLength)
    } else {
        let len = le_value(b, offset, 8);
        if offset + 8 + len > b.len() {
            Err(SectionError::SectionPastEnd)
        } else {
            Ok((b.subrange(offset + 8, offset + 8 + len), offset + 8 + len))
        }
    }
}

/// Walks the sections of a bundle.
pub struct SectionReader<'a> {
    pub bytes: &'a [u8],
    pub offset: usize,
}

impl<'a> SectionReader<'a> {
    /// A reader after the magic, if the bytes start with it.
    pub fn new(bytes: &'a [u8]) -> (r: Result<Self, SectionError>)
        ensures
            match r {
                Ok(reader) => bytes@.len() >= MAGIC_LEN && bytes@.take(8) == CURRENT_MAGIC@ && reader.bytes@ == bytes@
                    && reader.offset == MAGIC_LEN,
                Err(e) => e == SectionError::UnsupportedFormat && (bytes@.len() < MAGIC_LEN || bytes@.take(8)
                    != CURRENT_MAGIC@),
            },
    {
        if bytes.len() < MAGIC_LEN {
            return Err(SectionError::UnsupportedFormat);
        }
        let mut k: usize = 0;
        while k < MAGIC_LEN
            invariant
                bytes@.len() >= MAGIC_LEN,
                k <= MAGIC_LEN,
                bytes@.take(k as int) == CURRENT_MAGIC@.take(k as int),
            decreases MAGIC_LEN - k,
        {
            if bytes[k] != CURRENT_MAGIC[k] {
                proof {
                    assert(bytes@.take(8)[k as int] != CURRENT_MAGIC@[k as int]);
                }
                return Err(SectionError::UnsupportedFormat);
            }
            proof {
                assert(bytes@.take(k + 1) =~= bytes@.take(k as int).push(bytes@[k as int]));
                assert(CURRENT_MAGIC@.take(k + 1) =~= CURRENT_MAGIC@.take(k as int).push(CURRENT_MAGIC@[k as int]));
            }
            k += 1;
        }
        proof {
            assert(CURRENT_MAGIC@.take(8) =~= CURRENT_MAGIC@);
        }
        Ok(SectionReader { bytes, offset: MAGIC_LEN })
    }

    /// The next section's payload.
    pub fn next_section(&mut self) -> (r: Result<&'a [u8], SectionError>)
        requires
            old(self).offset <= old(self).bytes@.len(),
        ensures
            final(self).bytes == old(self).bytes,
            final(self).offset <= final(self).bytes@.len(),
            match section_at(old(self).bytes@, old(self).offset as int) {
                Ok((payload, next)) => r is Ok && r->Ok_0@ == payload && final(self).offset == next,
                Err(e) => r == Err::<&'a [u8], SectionError>(e) && final(self).offset == old(self).offset,
            },
    {
        let total = self.bytes.len();
        if total - self.offset < 8 {
            return Err(SectionError::MissingSectionLength);
        }
        let header_end = self.offset + 8;
        let len = crate::wkb::read_uint(self.bytes, self.offset, 8, true);
        if len > (total - header_end) as u64 {
            return Err(SectionError::SectionPastEnd);
        }
        let end = header_end + len as usize;
        self.offset = end;
        Ok(vstd::slice::slice_subrange(self.bytes, header_end, end))
    }
}

/// Reading a section back from bytes that hold it after `prefix` gives its
/// payload and moves past it, whatever follows.
pub proof fn lemma_section_round_trip(prefix: Seq<u8>, payload: Seq<u8>, rest: Seq<u8>)
    requires
        payload.len() < 0x1_0000_0000_0000_0000,
    ensures
        section_at(prefix + framed(payload) + rest, prefix.len() as int) == Ok::<(Seq<u8>, int), SectionError>(
            (payload, prefix.len() + 8 + payload.len() as int),
        ),
{
    let b = prefix + framed(payload) + rest;
    crate::wkb::lemma_places();
    lemma_le_round_trip(payload.len(), 8, payload + rest);
    assert(b == prefix + (le_bytes(payload.len(), 8) + (payload + rest)));
    lemma_le_value_offset(prefix, le_bytes(payload.len(), 8) + (payload + rest), 8);
    assert(b.subrange(prefix.len() + 8 as int, prefix.len() + 8 + payload.len() as int) =~= payload);
}

// ---------------------------------------------------------------------------
// Raw little-endian arrays.
// ---------------------------------------------------------------------------
/// Values stored one after another, `width` little-endian bytes each.
pub open spec fn raw_words(vals: Seq<nat>, width: nat) -> Seq<u8>
    decreases vals.len(),
{
    if vals.len() == 0 {
        seq![]
    } else {
        raw_words(vals.drop_last(), width) + le_bytes(vals.last(), width)
    }
}

/// The values of `width`-byte little-endian words in `b`.
pub open spec fn words_of(b: Seq<u8>, width: nat) -> Seq<nat>
    recommends
        width > 0,
{
    Seq::new(b.len() / width, |i: int| le_value(b, i * width, width))
}

pub open spec fn u32_vals(v: Seq<u32>) -> Seq<nat> {
    v.map_values(|x: u32| x as nat)
}

pub open spec fn u64_vals(v: Seq<u64>) -> Seq<nat> {
    v.map_values(|x: u64| x as nat)
}

proof fn lemma_le_value_prefix(s: Seq<u8>, t: Seq<u8>, p: int, n: nat)
    requires
        0 <= p,
        p + n <= s.len(),
    ensures
        le_value(s + t, p, n) == le_value(s, p, n),
    decreases n,
{
    if n > 0 {
        lemma_le_value_prefix(s, t, p + 1, (n - 1) as nat);
    }
}

proof fn lemma_le_bytes_len(v: nat, n: nat)
    ensures
        le_bytes(v, n).len() == n,
    decreases n,
{
    if n > 0 {
        lemma_le_bytes_len(v / 256, (n - 1) as nat);
    }
}

proof fn lemma_raw_len(vals: Seq<nat>, width: nat)
    ensures
        raw_words(vals, width).len() == vals.len() * width,
    decreases vals.len(),
{
    if vals.len() > 0 {
        lemma_raw_len(vals.drop_last(), width);
        lemma_le_bytes_len(vals.last(), width);
        assert(vals.len() * width == (vals.len() - 1) * width + width) by (nonlinear_arith);
    }
}

/// Words written raw read back as the same values.
pub proof fn lemma_raw_round_trip(vals: Seq<nat>, width: nat)
    requires
        width > 0,
        forall|i: int| 0 <= i < vals.len() ==> #[trigger] vals[i] < byte_place(width),
    ensures
        words_of(raw_words(vals, width), width) == vals,
    decreases vals.len(),
{
    lemma_raw_len(vals, width);
    let b = raw_words(vals, width);
    assert(b.len() / width == vals.len()) by {
        vstd::arithmetic::div_mod::lemma_div_by_multiple(vals.len() as int, width as int);
        assert(vals.len() * width == width * vals.len()) by (nonlinear_arith);
    }
    if vals.len() > 0 {
        let init = vals.drop_last();
        lemma_raw_round_trip(init, width);
        lemma_raw_len(init, width);
        let head = raw_words(init, width);
        assert forall|i: int| 0 <= i < vals.len() implies le_value(b, i * width, width) == vals[i] by {
            if i < init.len() {
                assert(i * width + width <= init.len() * width) by (nonlinear_arith)
                    requires
                        i + 1 <= init.len(),
                ;
                assert(0 <= i * width) by (nonlinear_arith)
                    requires
                        0 <= i,
                ;
                lemma_le_value_prefix(head, le_bytes(vals.last(), width), i * width, width);
                assert(words_of(head, width)[i] == init[i]);
            } else {
                lemma_le_bytes_len(vals.last(), width);
                lemma_le_value_offset(head, le_bytes(vals.last(), width), width);
                lemma_le_round_trip(vals.last(), width, Seq::<u8>::empty());
                assert(le_bytes(vals.last(), width) + Seq::<u8>::empty() =~= le_bytes(vals.last(), width));
            }
        }
        assert(words_of(b, width) =~= vals);
    } else {
        assert(words_of(b, width) =~= vals);
    }
}

/// The bytes of a `u32` array, little-endian.
pub fn encode_u32s(values: &[u32]) -> (r: Vec<u8>)
    ensures
        r@ == raw_words(u32_vals(values@), 4),
{
    let mut out: Vec<u8> = Vec::new();
    let mut i: usize = 0;
    while i < values.len()
        invariant
            i <= values@.len(),
            out@ == raw_words(u32_vals(values@.take(i as int)), 4),
        decreases values@.len() - i,
    {
        proof {
            assert(u32_vals(values@.take(i + 1)).drop_last() =~= u32_vals(values@.take(i as int)));
        }
        push_le_bytes(&mut out, values[i] as u64, 4);
        i += 1;
    }
    proof {
        assert(values@.take(values@.len() as int) =~= values@);
    }
    out
}

/// The bytes of a `u64` array, little-endian.
pub fn encode_u64s(values: &[u64]) -> (r: Vec<u8>)
    ensures
        r@ == raw_words(u64_vals(values@), 8),
{
    let mut out: Vec<u8> = Vec::new();
    let mut i: usize = 0;
    while i < values.len()
        invariant
            i <= values@.len(),
            out@ == raw_words(u64_vals(values@.take(i as int)), 8),
        decreases values@.len() - i,
    {
        proof {
            assert(u64_vals(values@.take(i + 1)).drop_last() =~= u64_vals(values@.take(i as int)));
        }
        push_le_bytes(&mut out, values[i], 8);
        i += 1;
    }
    proof {
        assert(values@.take(values@.len() as int) =~= values@);
    }
    out
}

/// A raw section of little-endian `u32` values.
pub fn decode_u32s(bytes: &[u8]) -> (r: Result<Vec<u32>, SectionError>)
    ensures
        bytes@.len() % 4 != 0 ==> r == Err::<Vec<u32>, SectionError>(SectionError::RaggedRawSection),
        bytes@.len() % 4 == 0 ==> r is Ok && u32_vals(r->Ok_0@) == words_of(bytes@, 4),
{
    let len = bytes.len();
    if len % 4 != 0 {
        return Err(SectionError::RaggedRawSection);
    }
    let count = len / 4;
    let mut out: Vec<u32> = Vec::new();
    let mut i: usize = 0;
    while i < count
        invariant
            len == bytes@.len(),
            count == len / 4,
            len % 4 == 0,
            i <= count,
            u32_vals(out@) == words_of(bytes@, 4).take(i as int),
        decreases count - i,
    {
        proof {
            crate::wkb::lemma_value_bound_pub(bytes@, 4 * i as int, 4, true);
            crate::wkb::lemma_places();
        }
        let v = crate::wkb::read_uint(bytes, 4 * i, 4, true);
        let ghost before = out@;
        out.push(v as u32);
        proof {
            assert(u32_vals(out@) =~= u32_vals(before).push(v as nat));
            assert(words_of(bytes@, 4).take(i + 1) =~= words_of(bytes@, 4).take(i as int).push(
                words_of(bytes@, 4)[i as int],
            ));
        }
        i += 1;
    }
    proof {
        assert(words_of(bytes@, 4).take(count as int) =~= words_of(bytes@, 4));
    }
    Ok(out)
}

/// A raw section of little-endian `u64` values.
pub fn decode_u64s(bytes: &[u8]) -> (r: Result<Vec<u64>, SectionError>)
    ensures
        bytes@.len() % 8 != 0 ==> r == Err::<Vec<u64>, SectionError>(SectionError::RaggedRawSection),
        bytes@.len() % 8 == 0 ==> r is Ok && u64_vals(r->Ok_0@) == words_of(bytes@, 8),
{
    let len = bytes.len();
    if len % 8 != 0 {
        return Err(SectionError::RaggedRawSection);
    }
    let count = len / 8;
    let mut out: Vec<u64> = Vec::new();
    let mut i: usize = 0;
    while i < count
        invariant
            len == bytes@.len(),
            count == len / 8,
            len % 8 == 0,
            i <= count,
            u64_vals(out@) == words_of(bytes@, 8).take(i as int),
        decreases count - i,
    {
        let v = crate::wkb::read_uint(bytes, 8 * i, 8, true);
        let ghost before = out@;
        out.push(v);
        proof {
            assert(u64_vals(out@) =~= u64_vals(before).push(v as nat));
            assert(words_of(bytes@, 8).take(i + 1) =~= words_of(bytes@, 8).take(i as int).push(
                words_of(bytes@, 8)[i as int],
            ));
        }
        i += 1;
    }
    proof {
        assert(words_of(bytes@, 8).take(count as int) =~= words_of(bytes@, 8));
    }
    Ok(out)
}

/// A `u32` array written raw reads back unchanged.
pub proof fn lemma_u32_array_round_trip(values: Seq<u32>)
    ensures
        words_of(raw_words(u32_vals(values), 4), 4) == u32_vals(values),
        raw_words(u32_vals(values), 4).len() % 4 == 0,
{
    crate::wkb::lemma_places();
    lemma_raw_round_trip(u32_vals(values), 4);
    lemma_raw_len(u32_vals(values), 4);
    assert((values.len() * 4) % 4 == 0) by (nonlinear_arith);
}

/// A `u64` array written raw reads back unchanged.
pub proof fn lemma_u64_array_round_trip(values: Seq<u64>)
    ensures
        words_of(raw_words(u64_vals(values), 8), 8) == u64_vals(values),
        raw_words(u64_vals(values), 8).len() % 8 == 0,
{
    crate::wkb::lemma_places();
    lemma_raw_round_trip(u64_vals(values), 8);
    lemma_raw_len(u64_vals(values), 8);
    assert((values.len() * 8) % 8 == 0) by (nonlinear_arith);
}

// ---------------------------------------------------------------------------
// Columnar tables.
// ---------------------------------------------------------------------------
/// Routing edges stored column by column, as the topology bundle holds
/// them; an edge without a temporal rule has `NO_TEMPORAL_RULE`.
pub struct RoutingColumns {
    pub edge_ids: Vec<u32>,
    pub froms: Vec<u32>,
    pub tos: Vec<u32>,
    pub way_ids: Vec<i64>,
    pub lengths: Vec<u32>,
    pub ascents: Vec<u32>,
    pub descents: Vec<u32>,
    pub flags: Vec<u32>,
    pub feature_rows: Vec<u32>,
    pub source_directions: Vec<i8>,
    pub temporal_rule_ids: Vec<u32>,
}

/// One row of the routing columns.
pub type RoutingRow = (u32, u32, u32, i64, u32, u32, u32, u32, u32, i8, u32);

pub open spec fn row_of_edge(e: RoutingEdge) -> RoutingRow {
    (
        e.edge_id.0,
        e.from.0,
        e.to.0,
        e.source_way_id,
        e.length_m,
        e.ascent_m,
        e.descent_m,
        e.flags,
        e.feature_row,
        e.source_direction,
        match e.temporal_rule_id {
            Some(id) => id,
            None => NO_TEMPORAL_RULE,
        },
    )
}

pub open spec fn edge_of_row(r: RoutingRow) -> RoutingEdge {
    RoutingEdge {
        edge_id: EdgeId(r.0),
        from: NodeId(r.1),
        to: NodeId(r.2),
        source_way_id: r.3,
        length_m: r.4,
        ascent_m: r.5,
        descent_m: r.6,
        flags: r.7,
        feature_row: r.8,
        source_direction: r.9,
        temporal_rule_id: if r.10 == NO_TEMPORAL_RULE {
            None
        } else {
            Some(r.10)
        },
    }
}

/// All eleven columns have `n` entries.
pub open spec fn columns_len(c: RoutingColumns, n: nat) -> bool {
    &&& c.edge_ids@.len() == n
    &&& c.froms@.len() == n
    &&& c.tos@.len() == n
    &&& c.way_ids@.len() == n
    &&& c.lengths@.len() == n
    &&& c.ascents@.len() == n
    &&& c.descents@.len() == n
    &&& c.flags@.len() == n
    &&& c.feature_rows@.len() == n
    &&& c.source_directions@.len() == n
    &&& c.temporal_rule_ids@.len() == n
}

pub open spec fn row_at(c: RoutingColumns, i: int) -> RoutingRow {
    (
        c.edge_ids@[i],
        c.froms@[i],
        c.tos@[i],
        c.way_ids@[i],
        c.lengths@[i],
        c.ascents@[i],
        c.descents@[i],
        c.flags@[i],
        c.feature_rows@[i],
        c.source_directions@[i],
        c.temporal_rule_ids@[i],
    )
}

/// Splits routing edges into columns.
pub fn routing_columns(edges: &Vec<RoutingEdge>) -> (r: RoutingColumns)
    ensures
        columns_len(r, edges@.len()),
        forall|i: int| 0 <= i < edges@.len() ==> #[trigger] row_at(r, i) == row_of_edge(edges@[i]),
{
    let mut c = RoutingColumns {
        edge_ids: Vec::new(),
        froms: Vec::new(),
        tos: Vec::new(),
        way_ids: Vec::new(),
        lengths: Vec::new(),
        ascents: Vec::new(),
        descents: Vec::new(),
        flags: Vec::new(),
        feature_rows: Vec::new(),
        source_directions: Vec::new(),
        temporal_rule_ids: Vec::new(),
    };
    let mut i: usize = 0;
    while i < edges.len()
        invariant
            i <= edges@.len(),
            columns_len(c, i as nat),
            forall|j: int| 0 <= j < i ==> #[trigger] row_at(c, j) == row_of_edge(edges@[j]),
        decreases edges@.len() - i,
    {
        let e = edges[i];
        let ghost before = c;
        c.edge_ids.push(e.edge_id.0);
        c.froms.push(e.from.0);
        c.tos.push(e.to.0);
        c.way_ids.push(e.source_way_id);
        c.lengths.push(e.length_m);
        c.ascents.push(e.ascent_m);
        c.descents.push(e.descent_m);
        c.flags.push(e.flags);
        c.feature_rows.push(e.feature_row);
        c.source_directions.push(e.source_direction);
        c.temporal_rule_ids.push(
            match e.temporal_rule_id {
                Some(id) => id,
                None => NO_TEMPORAL_RULE,
            },
        );
        proof {
            assert forall|j: int| 0 <= j < i + 1 implies #[trigger] row_at(c, j) == row_of_edge(edges@[j]) by {
                if j < i {
                    assert(row_at(before, j) == row_of_edge(edges@[j]));
                    assert(row_at(c, j) == row_at(before, j));
                }
            }
        }
        i += 1;
    }
    c
}

/// Reassembles routing edges from their columns, which must have one
/// length.
pub fn routing_edges_from_columns(c: &RoutingColumns) -> (r: Result<Vec<RoutingEdge>, SectionError>)
    ensures
        match r {
            Ok(edges) => columns_len(*c, edges@.len()) && forall|i: int|
                0 <= i < edges@.len() ==> #[trigger] edges@[i] == edge_of_row(row_at(*c, i)),
            Err(e) => e == SectionError::InconsistentLengths && !columns_len(*c, c.edge_ids@.len()),
        },
{
    let n = c.edge_ids.len();
    if c.froms.len() != n || c.tos.len() != n || c.way_ids.len() != n || c.lengths.len() != n || c.ascents.len()
        != n || c.descents.len() != n || c.flags.len() != n || c.feature_rows.len() != n
        || c.source_directions.len() != n || c.temporal_rule_ids.len() != n {
        return Err(SectionError::InconsistentLengths);
    }
    let mut edges: Vec<RoutingEdge> = Vec::new();
    let mut i: usize = 0;
    while i < n
        invariant
            columns_len(*c, n as nat),
            i <= n,
            edges@.len() == i,
            forall|j: int| 0 <= j < i ==> #[trigger] edges@[j] == edge_of_row(row_at(*c, j)),
        decreases n - i,
    {
        let t = c.temporal_rule_ids[i];
        edges.push(
            RoutingEdge {
                edge_id: EdgeId(c.edge_ids[i]),
                from: NodeId(c.froms[i]),
                to: NodeId(c.tos[i]),
                source_way_id: c.way_ids[i],
                length_m: c.lengths[i],
                ascent_m: c.ascents[i],
                descent_m: c.descents[i],
                flags: c.flags[i],
                feature_row: c.feature_rows[i],
                source_direction: c.source_directions[i],
                temporal_rule_id: if t == NO_TEMPORAL_RULE {
                    None
                } else {
                    Some(t)
                },
            },
        );
        i += 1;
    }
    Ok(edges)
}

/// Splitting an edge into its column row and reading the row back gives
/// the edge again, unless its temporal rule id is the sentinel itself.
pub proof fn lemma_routing_row_round_trip(e: RoutingEdge)
    requires
        e.temporal_rule_id != Some(NO_TEMPORAL_RULE),
    ensures
        edge_of_row(row_of_edge(e)) == e,
{
}

/// Nodes reassembled from their id and coordinate columns, which must have
/// one length.
pub fn nodes_from_columns(ids: &Vec<u32>, lons: &Vec<u64>, lats: &Vec<u64>, zs: &Vec<u64>) -> (r: Result<
    Vec<TopologyNode>,
    SectionError,
>)
    ensures
        match r {
            Ok(nodes) => nodes@.len() == ids@.len() && lons@.len() == ids@.len() && lats@.len() == ids@.len()
                && zs@.len() == ids@.len() && forall|i: int|
                0 <= i < nodes@.len() ==> #[trigger] nodes@[i] == (TopologyNode {
                    node_id: NodeId(ids@[i]),
                    lon: lons@[i],
                    lat: lats@[i],
                    z: zs@[i],
                }),
            Err(e) => e == SectionError::InconsistentLengths && !(lons@.len() == ids@.len() && lats@.len()
                == ids@.len() && zs@.len() == ids@.len()),
        },
{
    let n = ids.len();
    if lons.len() != n || lats.len() != n || zs.len() != n {
        return Err(SectionError::InconsistentLengths);
    }
    let mut nodes: Vec<TopologyNode> = Vec::new();
    let mut i: usize = 0;
    while i < n
        invariant
            i <= n,
            n == ids@.len(),
            lons@.len() == n && lats@.len() == n && zs@.len() == n,
            nodes@.len() == i,
            forall|j: int| 0 <= j < i ==> #[trigger] nodes@[j] == (TopologyNode {
                node_id: NodeId(ids@[j]),
                lon: lons@[j],
                lat: lats@[j],
                z: zs@[j],
            }),
        decreases n - i,
    {
        nodes.push(TopologyNode { node_id: NodeId(ids[i]), lon: lons[i], lat: lats[i], z: zs[i] });
        i += 1;
    }
    Ok(nodes)
}

} // verus!
