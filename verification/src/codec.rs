//! The binary container codec: a 4-byte magic tag, a little-endian 32-bit
//! entry count, and that many fixed-size records.

use vstd::prelude::*;

use crate::bytes::{
    lemma_le_u32_roundtrip, lemma_le_u64_roundtrip, lemma_u32_le_roundtrip, lemma_u64_le_roundtrip,
    push_u32_le, push_u64_le, read_u32_le, read_u64_le, u32_le_bytes, u32_of_le, u64_le_bytes,
    u64_of_le,
};

verus! {

/// Size in bytes of one encoded record: an 8-byte identifier, six 32-bit
/// fields, and 4 bytes of reserved padding.
pub const RECORD_SIZE: usize = 36;

/// Size in bytes of the container header: the magic tag and the entry count.
pub const HEADER_SIZE: usize = 8;

/// One record of loop and duration timing for a single music stream.
///
/// The fields are opaque integers to the codec: no semantic validation is
/// performed, and logically inconsistent values are preserved as-is.
#[derive(Debug, Clone, Copy, PartialEq, Eq, Structural)]
pub struct Entry {
    /// Hashed name identifying the music stream.
    pub name_id: u64,
    /// Beginning of the loop in milliseconds.
    pub loop_start_ms: u32,
    /// Beginning of the loop in samples.
    pub loop_start_sample: u32,
    /// End of the loop in milliseconds.
    pub loop_end_ms: u32,
    /// End of the loop in samples.
    pub loop_end_sample: u32,
    /// Duration of the stream in milliseconds.
    pub duration_ms: u32,
    /// Duration of the stream in samples.
    pub duration_sample: u32,
}

/// A failure of decoding or of textual parsing.
#[derive(Debug, Clone, Copy, PartialEq, Eq, Structural)]
pub enum Error {
    /// The first four bytes differ from the magic tag; `found` holds them,
    /// read as a little-endian 32-bit value, for diagnostics.
    BadMagic { found: u32 },
    /// Fewer bytes were present than the declared count demands.
    TruncatedInput,
    /// The textual mirror did not parse; `offset` is the byte position of
    /// the first offending input.
    TextFormat { offset: usize },
}

/// The fixed 4-byte magic tag, the ASCII literal `PMGB`.
pub open spec fn magic() -> Seq<u8> {
    seq![0x50u8, 0x4Du8, 0x47u8, 0x42u8]
}

/// The bytes of one encoded record: every field little-endian, in declared
/// order, then four zero bytes of padding.
pub open spec fn entry_bytes(e: Entry) -> Seq<u8> {
    u64_le_bytes(e.name_id) + u32_le_bytes(e.loop_start_ms) + u32_le_bytes(e.loop_start_sample)
        + u32_le_bytes(e.loop_end_ms) + u32_le_bytes(e.loop_end_sample)
        + u32_le_bytes(e.duration_ms) + u32_le_bytes(e.duration_sample)
        + seq![0u8, 0u8, 0u8, 0u8]
}

/// The record decoded from 36 bytes: every field little-endian, the trailing
/// 4 bytes of padding discarded.
pub open spec fn entry_of_bytes(r: Seq<u8>) -> Entry
    recommends
        r.len() == RECORD_SIZE,
{
    Entry {
        name_id: u64_of_le(r.subrange(0, 8)),
        loop_start_ms: u32_of_le(r.subrange(8, 12)),
        loop_start_sample: u32_of_le(r.subrange(12, 16)),
        loop_end_ms: u32_of_le(r.subrange(16, 20)),
        loop_end_sample: u32_of_le(r.subrange(20, 24)),
        duration_ms: u32_of_le(r.subrange(24, 28)),
        duration_sample: u32_of_le(r.subrange(28, 32)),
    }
}

/// The concatenated record bytes of a sequence of entries.
pub open spec fn entries_bytes(es: Seq<Entry>) -> Seq<u8>
    decreases es.len(),
{
    if es.len() == 0 {
        Seq::empty()
    } else {
        entry_bytes(es[0]) + entries_bytes(es.skip(1))
    }
}

/// The whole encoded container: magic tag, entry count, record bytes.
pub open spec fn encode_spec(es: Seq<Entry>) -> Seq<u8>
    recommends
        es.len() <= u32::MAX,
{
    magic() + u32_le_bytes(es.len() as u32) + entries_bytes(es)
}

/// The 36 bytes of record `i` within an encoded buffer.
pub open spec fn record_at(b: Seq<u8>, i: int) -> Seq<u8> {
    b.subrange(HEADER_SIZE + RECORD_SIZE * i, HEADER_SIZE + RECORD_SIZE * i + RECORD_SIZE as int)
}

/// The first `n` records decoded from a buffer.
pub open spec fn decode_entries(b: Seq<u8>, n: int) -> Seq<Entry>
    recommends
        0 <= n,
        HEADER_SIZE + RECORD_SIZE * n <= b.len(),
{
    Seq::new(n as nat, |i: int| entry_of_bytes(record_at(b, i)))
}

/// What decoding a buffer yields: the entries when the magic tag is present
/// and the declared count of records fits, the first failure otherwise.
/// Trailing bytes after the last declared record are ignored: a deliberate
/// tolerance, matching what field-deployed files expect, not an accident.
pub open spec fn decode_spec(b: Seq<u8>) -> Result<Seq<Entry>, Error> {
    if b.len() < 4 {
        Err(Error::TruncatedInput)
    } else if b.subrange(0, 4) != magic() {
        Err(Error::BadMagic { found: u32_of_le(b.subrange(0, 4)) })
    } else if b.len() < HEADER_SIZE {
        Err(Error::TruncatedInput)
    } else {
        let n = u32_of_le(b.subrange(4, HEADER_SIZE as int)) as int;
        if b.len() < HEADER_SIZE + RECORD_SIZE * n {
            Err(Error::TruncatedInput)
        } else {
            Ok(decode_entries(b, n))
        }
    }
}

/// The reserved padding of each of the first `n` records holds zero bytes.
pub open spec fn pads_zero(b: Seq<u8>, n: int) -> bool {
    forall|i: int|
        0 <= i < n ==> (#[trigger] record_at(b, i)).subrange(32, RECORD_SIZE as int)
            == seq![0u8, 0u8, 0u8, 0u8]
}

/// The in-memory container: an ordered sequence of entries.  The entry
/// count of the binary form is derived from the sequence length on every
/// encode, never stored.
#[derive(Debug, Clone, PartialEq, Eq)]
pub struct BgmPropertyFile {
    /// The entries, in file order.
    pub entries: Vec<Entry>,
}

impl BgmPropertyFile {
    /// Builds a container holding the given entries.
    pub fn new(entries: Vec<Entry>) -> (r: BgmPropertyFile)
        ensures
            r.entries@ == entries@,
    {
        BgmPropertyFile { entries }
    }

    /// The entries, in file order.
    pub fn entries(&self) -> (r: &Vec<Entry>)
        ensures
            r@ == self.entries@,
    {
        &self.entries
    }

    /// The entries, in file order, for modification in place.
    pub fn entries_mut(&mut self) -> (r: &mut Vec<Entry>)
        ensures
            *r == old(self).entries,
            *final(self) == (BgmPropertyFile { entries: *final(r) }),
    {
        &mut self.entries
    }

    /// Decodes a container from a byte buffer.
    ///
    /// Succeeds exactly when the buffer starts with the magic tag and holds
    /// the full declared count of records; trailing bytes are ignored.
    /// Fails with `BadMagic` when the first four bytes differ from the tag,
    /// and with `TruncatedInput` when bytes run out.
    pub fn read(bytes: &[u8]) -> (r: Result<BgmPropertyFile, Error>)
        ensures
            match r {
                Ok(f) => decode_spec(bytes@) == Ok::<Seq<Entry>, Error>(f.entries@),
                Err(e) => decode_spec(bytes@) == Err::<Seq<Entry>, Error>(e),
            },
            r is Ok <==> bytes@.len() >= HEADER_SIZE && bytes@.subrange(0, 4) == magic()
                && HEADER_SIZE + RECORD_SIZE * (u32_of_le(
                bytes@.subrange(4, HEADER_SIZE as int),
            ) as int) <= bytes@.len(),
            bytes@.len() >= 4 && bytes@.subrange(0, 4) != magic() ==> r == Err::<
                BgmPropertyFile,
                Error,
            >(Error::BadMagic { found: u32_of_le(bytes@.subrange(0, 4)) }),
            r is Err && !(bytes@.len() >= 4 && bytes@.subrange(0, 4) != magic()) ==> r == Err::<
                BgmPropertyFile,
                Error,
            >(Error::TruncatedInput),
    {
        if bytes.len() < 4 {
            return Err(Error::TruncatedInput);
        }
        if bytes[0] != 0x50 || bytes[1] != 0x4D || bytes[2] != 0x47 || bytes[3] != 0x42 {
            let found = read_u32_le(bytes, 0);
            proof {
                let s = bytes@.subrange(0, 4);
                assert(s[0] == bytes@[0] && s[1] == bytes@[1] && s[2] == bytes@[2] && s[3]
                    == bytes@[3]);
                assert(s != magic());
            }
            return Err(Error::BadMagic { found });
        }
        proof {
            assert(bytes@.subrange(0, 4) =~= magic());
        }
        if bytes.len() < HEADER_SIZE {
            return Err(Error::TruncatedInput);
        }
        let n = read_u32_le(bytes, 4);
        let avail = (bytes.len() - HEADER_SIZE) / RECORD_SIZE;
        proof {
            let l = bytes@.len() as int;
            vstd::arithmetic::div_mod::lemma_fundamental_div_mod(l - 8, 36);
            assert((l - 8) % 36 < 36 && (l - 8) % 36 >= 0) by {
                vstd::arithmetic::div_mod::lemma_mod_bound(l - 8, 36);
            }
            assert(avail as int == (l - 8) / 36);
            assert(n as int <= avail as int ==> 36 * (n as int) <= 36 * (avail as int))
                by (nonlinear_arith);
            assert(n as int > avail as int ==> 36 * (n as int) >= 36 * (avail as int) + 36)
                by (nonlinear_arith);
        }
        if (n as usize) > avail {
            return Err(Error::TruncatedInput);
        }
        let blen: usize = bytes.len();
        let mut entries: Vec<Entry> = Vec::new();
        let mut i: usize = 0;
        let mut off: usize = HEADER_SIZE;
        while i < n as usize
            invariant
                i <= n,
                off == HEADER_SIZE + RECORD_SIZE * i,
                blen == bytes@.len(),
                HEADER_SIZE + RECORD_SIZE * (n as int) <= blen,
                entries@ == decode_entries(bytes@, i as int),
            decreases n as int - i as int,
        {
            proof {
                assert(RECORD_SIZE * (i as int) + RECORD_SIZE <= RECORD_SIZE * (n as int)) by (
                nonlinear_arith)
                    requires
                        i < n,
                ;
            }
            let e = read_entry(bytes, off);
            entries.push(e);
            proof {
                assert(bytes@.subrange(off as int, off as int + RECORD_SIZE as int) == record_at(
                    bytes@,
                    i as int,
                ));
                assert(decode_entries(bytes@, i as int + 1) =~= decode_entries(
                    bytes@,
                    i as int,
                ).push(entry_of_bytes(record_at(bytes@, i as int))));
            }
            i = i + 1;
            off = off + RECORD_SIZE;
        }
        Ok(BgmPropertyFile { entries })
    }

    /// Encodes the container: the magic tag, then the entry count recomputed
    /// from the sequence length, then each record in order.
    pub fn write(&self) -> (r: Vec<u8>)
        requires
            self.entries@.len() <= u32::MAX,
        ensures
            r@ == encode_spec(self.entries@),
            r@.len() == HEADER_SIZE + RECORD_SIZE * self.entries@.len(),
    {
        let mut out: Vec<u8> = Vec::new();
        out.push(0x50);
        out.push(0x4D);
        out.push(0x47);
        out.push(0x42);
        proof {
            assert(out@ =~= magic());
        }
        push_u32_le(&mut out, self.entries.len() as u32);
        let ghost header: Seq<u8> = magic() + u32_le_bytes(self.entries@.len() as u32);
        proof {
            assert(out@ =~= header);
        }
        let mut i: usize = 0;
        while i < self.entries.len()
            invariant
                i <= self.entries@.len(),
                header == magic() + u32_le_bytes(self.entries@.len() as u32),
                out@ == header + entries_bytes(self.entries@.take(i as int)),
            decreases self.entries@.len() - i as int,
        {
            push_entry(&mut out, &self.entries[i]);
            proof {
                lemma_entries_bytes_snoc(self.entries@.take(i as int), self.entries@[i as int]);
                assert(self.entries@.take(i as int + 1) =~= self.entries@.take(i as int).push(
                    self.entries@[i as int],
                ));
                assert(out@ =~= header + entries_bytes(self.entries@.take(i as int + 1)));
            }
            i = i + 1;
        }
        proof {
            assert(self.entries@.take(self.entries@.len() as int) =~= self.entries@);
            lemma_entries_bytes_len(self.entries@);
        }
        out
    }
}

/// Reads one 36-byte record at offset `off`.
fn read_entry(b: &[u8], off: usize) -> (r: Entry)
    requires
        off + RECORD_SIZE <= b@.len(),
    ensures
        r == entry_of_bytes(b@.subrange(off as int, off as int + RECORD_SIZE as int)),
{
    let blen: usize = b.len();
    let r = Entry {
        name_id: read_u64_le(b, off),
        loop_start_ms: read_u32_le(b, off + 8),
        loop_start_sample: read_u32_le(b, off + 12),
        loop_end_ms: read_u32_le(b, off + 16),
        loop_end_sample: read_u32_le(b, off + 20),
        duration_ms: read_u32_le(b, off + 24),
        duration_sample: read_u32_le(b, off + 28),
    };
    proof {
        let o = off as int;
        let rec = b@.subrange(o, o + RECORD_SIZE as int);
        assert(b@.subrange(o, o + 8) =~= rec.subrange(0, 8));
        assert(b@.subrange(o + 8, o + 12) =~= rec.subrange(8, 12));
        assert(b@.subrange(o + 12, o + 16) =~= rec.subrange(12, 16));
        assert(b@.subrange(o + 16, o + 20) =~= rec.subrange(16, 20));
        assert(b@.subrange(o + 20, o + 24) =~= rec.subrange(20, 24));
        assert(b@.subrange(o + 24, o + 28) =~= rec.subrange(24, 28));
        assert(b@.subrange(o + 28, o + 32) =~= rec.subrange(28, 32));
    }
    r
}

/// Appends the 36 bytes of one record.
fn push_entry(out: &mut Vec<u8>, e: &Entry)
    ensures
        final(out)@ == old(out)@ + entry_bytes(*e),
{
    push_u64_le(out, e.name_id);
    push_u32_le(out, e.loop_start_ms);
    push_u32_le(out, e.loop_start_sample);
    push_u32_le(out, e.loop_end_ms);
    push_u32_le(out, e.loop_end_sample);
    push_u32_le(out, e.duration_ms);
    push_u32_le(out, e.duration_sample);
    out.push(0);
    out.push(0);
    out.push(0);
    out.push(0);
    assert(out@ =~= old(out)@ + entry_bytes(*e));
}

/// The record bytes of `es.push(e)` are those of `es` followed by those of `e`.
proof fn lemma_entries_bytes_snoc(es: Seq<Entry>, e: Entry)
    ensures
        entries_bytes(es.push(e)) == entries_bytes(es) + entry_bytes(e),
    decreases es.len(),
{
    let p = es.push(e);
    if es.len() == 0 {
        assert(p[0] == e);
        assert(p.skip(1) =~= Seq::<Entry>::empty());
        assert(entries_bytes(p.skip(1)) == Seq::<u8>::empty());
        assert(entries_bytes(p) == entry_bytes(e) + Seq::<u8>::empty());
        assert(entries_bytes(es) == Seq::<u8>::empty());
        assert(entry_bytes(e) + Seq::<u8>::empty() =~= Seq::<u8>::empty() + entry_bytes(e));
    } else {
        assert(p[0] == es[0]);
        assert(p.skip(1) =~= es.skip(1).push(e));
        lemma_entries_bytes_snoc(es.skip(1), e);
        assert(entries_bytes(p) == entry_bytes(es[0]) + (entries_bytes(es.skip(1)) + entry_bytes(
            e,
        )));
        assert(entry_bytes(es[0]) + (entries_bytes(es.skip(1)) + entry_bytes(e)) =~= (entry_bytes(
            es[0],
        ) + entries_bytes(es.skip(1))) + entry_bytes(e));
    }
}

/// The record bytes of `n` entries occupy exactly `36 * n` bytes.
pub proof fn lemma_entries_bytes_len(es: Seq<Entry>)
    ensures
        entries_bytes(es).len() == RECORD_SIZE * es.len(),
    decreases es.len(),
{
    if es.len() == 0 {
    } else {
        lemma_entries_bytes_len(es.skip(1));
    }
}

/// Record `i` of the concatenated record bytes is the encoding of entry `i`.
proof fn lemma_entries_bytes_index(es: Seq<Entry>, i: int)
    requires
        0 <= i < es.len(),
    ensures
        entries_bytes(es).subrange(RECORD_SIZE * i, RECORD_SIZE * i + RECORD_SIZE as int)
            == entry_bytes(es[i]),
    decreases es.len(),
{
    lemma_entries_bytes_len(es);
    if i == 0 {
        assert(entries_bytes(es).subrange(0, RECORD_SIZE as int) =~= entry_bytes(es[0]));
    } else {
        lemma_entries_bytes_index(es.skip(1), i - 1);
        lemma_entries_bytes_len(es.skip(1));
        assert(entries_bytes(es).subrange(
            RECORD_SIZE * i,
            RECORD_SIZE * i + RECORD_SIZE as int,
        ) =~= entries_bytes(es.skip(1)).subrange(
            RECORD_SIZE * (i - 1),
            RECORD_SIZE * (i - 1) + RECORD_SIZE as int,
        ));
    }
}

/// Decoding the bytes of an entry gives the entry back.
proof fn lemma_entry_roundtrip(e: Entry)
    ensures
        entry_of_bytes(entry_bytes(e)) == e,
{
    let b = entry_bytes(e);
    assert(b.subrange(0, 8) =~= u64_le_bytes(e.name_id));
    assert(b.subrange(8, 12) =~= u32_le_bytes(e.loop_start_ms));
    assert(b.subrange(12, 16) =~= u32_le_bytes(e.loop_start_sample));
    assert(b.subrange(16, 20) =~= u32_le_bytes(e.loop_end_ms));
    assert(b.subrange(20, 24) =~= u32_le_bytes(e.loop_end_sample));
    assert(b.subrange(24, 28) =~= u32_le_bytes(e.duration_ms));
    assert(b.subrange(28, 32) =~= u32_le_bytes(e.duration_sample));
    lemma_u64_le_roundtrip(e.name_id);
    lemma_u32_le_roundtrip(e.loop_start_ms);
    lemma_u32_le_roundtrip(e.loop_start_sample);
    lemma_u32_le_roundtrip(e.loop_end_ms);
    lemma_u32_le_roundtrip(e.loop_end_sample);
    lemma_u32_le_roundtrip(e.duration_ms);
    lemma_u32_le_roundtrip(e.duration_sample);
}

/// Re-encoding the entry decoded from a 36-byte record with zero padding
/// reproduces the record byte for byte.
proof fn lemma_entry_bytes_of(r: Seq<u8>)
    requires
        r.len() == RECORD_SIZE,
        r.subrange(32, RECORD_SIZE as int) == seq![0u8, 0u8, 0u8, 0u8],
    ensures
        entry_bytes(entry_of_bytes(r)) == r,
{
    let e = entry_of_bytes(r);
    lemma_le_u64_roundtrip(r.subrange(0, 8));
    lemma_le_u32_roundtrip(r.subrange(8, 12));
    lemma_le_u32_roundtrip(r.subrange(12, 16));
    lemma_le_u32_roundtrip(r.subrange(16, 20));
    lemma_le_u32_roundtrip(r.subrange(20, 24));
    lemma_le_u32_roundtrip(r.subrange(24, 28));
    lemma_le_u32_roundtrip(r.subrange(28, 32));
    assert(entry_bytes(e) =~= r);
}

/// Round-trip identity, encode side: decoding the encoding of any entry
/// sequence yields that sequence back, with the recomputed count equal to
/// its length.
pub proof fn lemma_round_trip_encode(es: Seq<Entry>)
    requires
        es.len() <= u32::MAX,
    ensures
        decode_spec(encode_spec(es)) == Ok::<Seq<Entry>, Error>(es),
{
    let b = encode_spec(es);
    lemma_entries_bytes_len(es);
    assert(b.len() == HEADER_SIZE + RECORD_SIZE * es.len());
    assert(b.subrange(0, 4) =~= magic());
    assert(b.subrange(4, HEADER_SIZE as int) =~= u32_le_bytes(es.len() as u32));
    lemma_u32_le_roundtrip(es.len() as u32);
    let n = u32_of_le(b.subrange(4, HEADER_SIZE as int)) as int;
    assert(n == es.len());
    assert forall|i: int| 0 <= i < n implies entry_of_bytes(record_at(b, i)) == es[i] by {
        lemma_entries_bytes_index(es, i);
        assert(record_at(b, i) =~= entries_bytes(es).subrange(
            RECORD_SIZE * i,
            RECORD_SIZE * i + RECORD_SIZE as int,
        ));
        lemma_entry_roundtrip(es[i]);
    }
    assert(decode_entries(b, n) =~= es);
}

/// The record region up to record `n` splits into the region up to record
/// `n - 1` followed by record `n - 1`.
proof fn lemma_record_region_split(b: Seq<u8>, n: int)
    requires
        1 <= n,
        HEADER_SIZE + RECORD_SIZE * n <= b.len(),
    ensures
        b.subrange(HEADER_SIZE as int, HEADER_SIZE + RECORD_SIZE * n) == b.subrange(
            HEADER_SIZE as int,
            HEADER_SIZE + RECORD_SIZE * (n - 1),
        ) + record_at(b, n - 1),
{
    assert(b.subrange(HEADER_SIZE as int, HEADER_SIZE + RECORD_SIZE * n) =~= b.subrange(
        HEADER_SIZE as int,
        HEADER_SIZE + RECORD_SIZE * (n - 1),
    ) + record_at(b, n - 1));
}

/// The concatenated record bytes of the decoded entries reproduce the
/// record region of the buffer, provided the padding bytes there are zero.
proof fn lemma_entries_bytes_of_decode(b: Seq<u8>, n: int)
    requires
        0 <= n,
        HEADER_SIZE + RECORD_SIZE * n <= b.len(),
        pads_zero(b, n),
    ensures
        entries_bytes(decode_entries(b, n)) == b.subrange(
            HEADER_SIZE as int,
            HEADER_SIZE + RECORD_SIZE * n,
        ),
    decreases n,
{
    if n == 0 {
        assert(decode_entries(b, 0) =~= Seq::<Entry>::empty());
        assert(b.subrange(HEADER_SIZE as int, HEADER_SIZE as int) =~= Seq::<u8>::empty());
    } else {
        lemma_entries_bytes_of_decode(b, n - 1);
        let e = entry_of_bytes(record_at(b, n - 1));
        assert(decode_entries(b, n) =~= decode_entries(b, n - 1).push(e));
        lemma_entries_bytes_snoc(decode_entries(b, n - 1), e);
        assert(record_at(b, n - 1).subrange(32, RECORD_SIZE as int) == seq![0u8, 0u8, 0u8, 0u8]);
        lemma_entry_bytes_of(record_at(b, n - 1));
        lemma_record_region_split(b, n);
    }
}

/// Round-trip identity, decode side: for a buffer that decodes successfully
/// and whose reserved padding bytes are zero, re-encoding the decoded
/// entries reproduces the buffer up to the last byte of the final declared
/// record; trailing bytes are dropped.
pub proof fn lemma_round_trip_decode(b: Seq<u8>)
    requires
        decode_spec(b) is Ok,
        pads_zero(b, u32_of_le(b.subrange(4, HEADER_SIZE as int)) as int),
    ensures
        encode_spec(decode_spec(b)->Ok_0) == b.take(
            HEADER_SIZE + RECORD_SIZE * (u32_of_le(b.subrange(4, HEADER_SIZE as int)) as int),
        ),
{
    let n = u32_of_le(b.subrange(4, HEADER_SIZE as int)) as int;
    let es = decode_spec(b)->Ok_0;
    assert(es == decode_entries(b, n));
    assert(es.len() == n);
    lemma_entries_bytes_of_decode(b, n);
    lemma_le_u32_roundtrip(b.subrange(4, HEADER_SIZE as int));
    assert(u32_le_bytes(es.len() as u32) == b.subrange(4, HEADER_SIZE as int));
    assert(encode_spec(es) =~= b.take(HEADER_SIZE + RECORD_SIZE * n));
}

/// Count integrity: the encoding always carries the sequence length as its
/// count field, and an empty sequence encodes to exactly the 8-byte header
/// with a count of zero.
pub proof fn lemma_count_integrity(es: Seq<Entry>)
    requires
        es.len() <= u32::MAX,
    ensures
        encode_spec(es).subrange(4, HEADER_SIZE as int) == u32_le_bytes(es.len() as u32),
        encode_spec(es).len() == HEADER_SIZE + RECORD_SIZE * es.len(),
        es.len() == 0 ==> encode_spec(es) == magic() + u32_le_bytes(0),
{
    lemma_entries_bytes_len(es);
    assert(encode_spec(es).subrange(4, HEADER_SIZE as int) =~= u32_le_bytes(es.len() as u32));
    if es.len() == 0 {
        assert(encode_spec(es) =~= magic() + u32_le_bytes(0));
    }
}

/// Two 36-byte records that agree outside the reserved padding decode to
/// the same entry.
pub proof fn lemma_entry_padding_inert(r1: Seq<u8>, r2: Seq<u8>)
    requires
        r1.len() == RECORD_SIZE,
        r2.len() == RECORD_SIZE,
        forall|j: int| 0 <= j < 32 ==> r1[j] == r2[j],
    ensures
        entry_of_bytes(r1) == entry_of_bytes(r2),
{
    assert(r1.subrange(0, 8) =~= r2.subrange(0, 8));
    assert(r1.subrange(8, 12) =~= r2.subrange(8, 12));
    assert(r1.subrange(12, 16) =~= r2.subrange(12, 16));
    assert(r1.subrange(16, 20) =~= r2.subrange(16, 20));
    assert(r1.subrange(20, 24) =~= r2.subrange(20, 24));
    assert(r1.subrange(24, 28) =~= r2.subrange(24, 28));
    assert(r1.subrange(28, 32) =~= r2.subrange(28, 32));
}

/// `k` lies in the reserved padding of one of the records that the count
/// field of `b` declares.
pub open spec fn pad_position(b: Seq<u8>, k: int) -> bool {
    b.len() >= HEADER_SIZE && {
        let n = u32_of_le(b.subrange(4, HEADER_SIZE as int)) as int;
        HEADER_SIZE <= k < HEADER_SIZE + RECORD_SIZE * n && (k - HEADER_SIZE) % (
        RECORD_SIZE as int) >= 32
    }
}

/// The padding of the encoding of any entry sequence holds zero bytes.
pub proof fn lemma_encode_pads_zero(es: Seq<Entry>)
    requires
        es.len() <= u32::MAX,
    ensures
        pads_zero(encode_spec(es), es.len() as int),
{
    let b = encode_spec(es);
    lemma_entries_bytes_len(es);
    assert forall|i: int| 0 <= i < es.len() implies (#[trigger] record_at(b, i)).subrange(
        32,
        RECORD_SIZE as int,
    ) == seq![0u8, 0u8, 0u8, 0u8] by {
        lemma_entries_bytes_index(es, i);
        assert(record_at(b, i) =~= entries_bytes(es).subrange(
            RECORD_SIZE * i,
            RECORD_SIZE * i + RECORD_SIZE as int,
        ));
        assert(record_at(b, i) == entry_bytes(es[i]));
        assert(entry_bytes(es[i]).subrange(32, RECORD_SIZE as int) =~= seq![0u8, 0u8, 0u8, 0u8]);
    }
}

/// Padding is inert: two buffers of one length that agree everywhere but in
/// the reserved padding of the declared records decode alike.
pub proof fn lemma_padding_inert(b1: Seq<u8>, b2: Seq<u8>)
    requires
        b1.len() == b2.len(),
        forall|k: int| #![auto] 0 <= k < b1.len() && !pad_position(b1, k) ==> b1[k] == b2[k],
    ensures
        decode_spec(b1) == decode_spec(b2),
{
    if b1.len() < HEADER_SIZE {
        assert forall|k: int| 0 <= k < b1.len() implies b1[k] == b2[k] by {
            assert(!pad_position(b1, k));
        }
        assert(b1 =~= b2);
    } else {
        assert forall|k: int| 0 <= k < HEADER_SIZE implies b1[k] == b2[k] by {
            assert(!pad_position(b1, k));
        }
        assert(b1.subrange(0, 4) =~= b2.subrange(0, 4));
        assert(b1.subrange(4, HEADER_SIZE as int) =~= b2.subrange(4, HEADER_SIZE as int));
        let n = u32_of_le(b1.subrange(4, HEADER_SIZE as int)) as int;
        if b1.subrange(0, 4) == magic() && b1.len() >= HEADER_SIZE + RECORD_SIZE * n {
            assert forall|i: int| 0 <= i < n implies entry_of_bytes(record_at(b1, i))
                == entry_of_bytes(record_at(b2, i)) by {
                assert forall|j: int| 0 <= j < 32 implies record_at(b1, i)[j] == record_at(
                    b2,
                    i,
                )[j] by {
                    let k = HEADER_SIZE + RECORD_SIZE * i + j;
                    assert(RECORD_SIZE * i + RECORD_SIZE <= RECORD_SIZE * n) by (nonlinear_arith)
                        requires
                            i < n,
                    ;
                    assert(0 <= RECORD_SIZE * i) by (nonlinear_arith)
                        requires
                            0 <= i,
                    ;
                    vstd::arithmetic::div_mod::lemma_fundamental_div_mod_converse(
                        RECORD_SIZE * i + j,
                        RECORD_SIZE as int,
                        i,
                        j,
                    );
                    assert((k - HEADER_SIZE) % (RECORD_SIZE as int) == j);
                    assert(!pad_position(b1, k));
                    assert(b1[k] == b2[k]);
                }
                lemma_entry_padding_inert(record_at(b1, i), record_at(b2, i));
            }
            assert(decode_entries(b1, n) =~= decode_entries(b2, n));
        }
    }
}

} // verus!
