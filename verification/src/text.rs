//! The textual mirror of the container: one line per field, the field
//! names of the binary schema, decimal integers, and an optional label
//! annotation after the identifier.  The mirror is isomorphic to the
//! in-memory model: values survive a round trip exactly.

use vstd::prelude::*;

use crate::codec::{BgmPropertyFile, Entry, Error};
use crate::dec::{
    dec_digits, find_line_end, is_digit, lemma_digits_end, lemma_line_end,
    lemma_line_end_determined, lemma_parse_u64_of_digits, line_end, parse_u64_at, parse_u64_spec,
    push_dec_u64,
};
use crate::labels::{lemma_lookup_from_table, lookup_spec, LabelTable};

verus! {

/// The bytes of the line key `name_id: `.
pub open spec fn key_name_id() -> Seq<u8> {
    seq![110u8, 97u8, 109u8, 101u8, 95u8, 105u8, 100u8, 58u8, 32u8]
}

/// The bytes of the line key `loop_start_ms: `.
pub open spec fn key_loop_start_ms() -> Seq<u8> {
    seq![
        108u8, 111u8, 111u8, 112u8, 95u8, 115u8, 116u8, 97u8, 114u8, 116u8, 95u8, 109u8, 115u8,
        58u8, 32u8,
    ]
}

/// The bytes of the line key `loop_start_sample: `.
pub open spec fn key_loop_start_sample() -> Seq<u8> {
    seq![
        108u8, 111u8, 111u8, 112u8, 95u8, 115u8, 116u8, 97u8, 114u8, 116u8, 95u8, 115u8, 97u8,
        109u8, 112u8, 108u8, 101u8, 58u8, 32u8,
    ]
}

/// The bytes of the line key `loop_end_ms: `.
pub open spec fn key_loop_end_ms() -> Seq<u8> {
    seq![108u8, 111u8, 111u8, 112u8, 95u8, 101u8, 110u8, 100u8, 95u8, 109u8, 115u8, 58u8, 32u8]
}

/// The bytes of the line key `loop_end_sample: `.
pub open spec fn key_loop_end_sample() -> Seq<u8> {
    seq![
        108u8, 111u8, 111u8, 112u8, 95u8, 101u8, 110u8, 100u8, 95u8, 115u8, 97u8, 109u8, 112u8,
        108u8, 101u8, 58u8, 32u8,
    ]
}

/// The bytes of the line key `duration_ms: `.
pub open spec fn key_duration_ms() -> Seq<u8> {
    seq![100u8, 117u8, 114u8, 97u8, 116u8, 105u8, 111u8, 110u8, 95u8, 109u8, 115u8, 58u8, 32u8]
}

/// The bytes of the line key `duration_sample: `.
pub open spec fn key_duration_sample() -> Seq<u8> {
    seq![
        100u8, 117u8, 114u8, 97u8, 116u8, 105u8, 111u8, 110u8, 95u8, 115u8, 97u8, 109u8, 112u8,
        108u8, 101u8, 58u8, 32u8,
    ]
}

/// The annotation after the identifier: ` # ` and the display name when the
/// table knows the hash, nothing otherwise.
pub open spec fn annot(id: u64, labels: Seq<(u64, Seq<u8>)>) -> Seq<u8> {
    match lookup_spec(labels, id) {
        Option::Some(name) => seq![32u8, 35u8, 32u8] + name,
        Option::None => Seq::empty(),
    }
}

/// The text of the identifier line: its key, the hash in decimal, the
/// optional annotation, a newline.
pub open spec fn name_line_text(id: u64, labels: Seq<(u64, Seq<u8>)>) -> Seq<u8> {
    key_name_id() + dec_digits(id as nat) + annot(id, labels) + seq![10u8]
}

/// The text of one `key: value` line of a 32-bit field.
pub open spec fn u32_line_text(key: Seq<u8>, v: u32) -> Seq<u8> {
    key + dec_digits(v as nat) + seq![10u8]
}

/// The text of one entry: seven `key: value` lines in field order, the
/// identifier line optionally annotated.
pub open spec fn entry_text(e: Entry, labels: Seq<(u64, Seq<u8>)>) -> Seq<u8> {
    name_line_text(e.name_id, labels) + (u32_line_text(key_loop_start_ms(), e.loop_start_ms) + (
    u32_line_text(key_loop_start_sample(), e.loop_start_sample) + (u32_line_text(
        key_loop_end_ms(),
        e.loop_end_ms,
    ) + (u32_line_text(key_loop_end_sample(), e.loop_end_sample) + (u32_line_text(
        key_duration_ms(),
        e.duration_ms,
    ) + u32_line_text(key_duration_sample(), e.duration_sample))))))
}

/// The text of a container: the text of each entry in order.
pub open spec fn text_spec(es: Seq<Entry>, labels: Seq<(u64, Seq<u8>)>) -> Seq<u8>
    decreases es.len(),
{
    if es.len() == 0 {
        Seq::empty()
    } else {
        entry_text(es[0], labels) + text_spec(es.skip(1), labels)
    }
}

/// The text of `es.push(e)` is the text of `es` followed by that of `e`.
proof fn lemma_text_spec_snoc(es: Seq<Entry>, e: Entry, labels: Seq<(u64, Seq<u8>)>)
    ensures
        text_spec(es.push(e), labels) == text_spec(es, labels) + entry_text(e, labels),
    decreases es.len(),
{
    let p = es.push(e);
    if es.len() == 0 {
        assert(p[0] == e);
        assert(p.skip(1) =~= Seq::<Entry>::empty());
        assert(text_spec(p.skip(1), labels) == Seq::<u8>::empty());
        assert(text_spec(p, labels) == entry_text(e, labels) + Seq::<u8>::empty());
        assert(text_spec(es, labels) == Seq::<u8>::empty());
        assert(entry_text(e, labels) + Seq::<u8>::empty() =~= Seq::<u8>::empty() + entry_text(
            e,
            labels,
        ));
    } else {
        assert(p[0] == es[0]);
        assert(p.skip(1) =~= es.skip(1).push(e));
        lemma_text_spec_snoc(es.skip(1), e, labels);
        assert(text_spec(p, labels) == entry_text(es[0], labels) + (text_spec(es.skip(1), labels)
            + entry_text(e, labels)));
        assert(entry_text(es[0], labels) + (text_spec(es.skip(1), labels) + entry_text(e, labels))
            =~= (entry_text(es[0], labels) + text_spec(es.skip(1), labels)) + entry_text(
            e,
            labels,
        ));
    }
}

/// Appends a copy of `v`.
fn push_bytes(out: &mut Vec<u8>, v: &Vec<u8>)
    ensures
        final(out)@ == old(out)@ + v@,
{
    let n = v.len();
    let mut i: usize = 0;
    while i < n
        invariant
            i <= n,
            n == v@.len(),
            out@ == old(out)@ + v@.take(i as int),
        decreases n - i,
    {
        out.push(v[i]);
        proof {
            assert(out@ =~= old(out)@ + v@.take(i as int + 1));
        }
        i = i + 1;
    }
    proof {
        assert(v@.take(n as int) =~= v@);
    }
}

/// Builds the key `name_id: `.
fn key_name_id_vec() -> (r: Vec<u8>)
    ensures
        r@ == key_name_id(),
{
    let r = vec![110u8, 97u8, 109u8, 101u8, 95u8, 105u8, 100u8, 58u8, 32u8];
    proof {
        assert(r@ =~= key_name_id());
    }
    r
}

/// Builds the key `loop_start_ms: `.
fn key_loop_start_ms_vec() -> (r: Vec<u8>)
    ensures
        r@ == key_loop_start_ms(),
{
    let r = vec![
        108u8, 111u8, 111u8, 112u8, 95u8, 115u8, 116u8, 97u8, 114u8, 116u8, 95u8, 109u8, 115u8,
        58u8, 32u8,
    ];
    proof {
        assert(r@ =~= key_loop_start_ms());
    }
    r
}

/// Builds the key `loop_start_sample: `.
fn key_loop_start_sample_vec() -> (r: Vec<u8>)
    ensures
        r@ == key_loop_start_sample(),
{
    let r = vec![
        108u8, 111u8, 111u8, 112u8, 95u8, 115u8, 116u8, 97u8, 114u8, 116u8, 95u8, 115u8, 97u8,
        109u8, 112u8, 108u8, 101u8, 58u8, 32u8,
    ];
    proof {
        assert(r@ =~= key_loop_start_sample());
    }
    r
}

/// Builds the key `loop_end_ms: `.
fn key_loop_end_ms_vec() -> (r: Vec<u8>)
    ensures
        r@ == key_loop_end_ms(),
{
    let r = vec![
        108u8, 111u8, 111u8, 112u8, 95u8, 101u8, 110u8, 100u8, 95u8, 109u8, 115u8, 58u8, 32u8,
    ];
    proof {
        assert(r@ =~= key_loop_end_ms());
    }
    r
}

/// Builds the key `loop_end_sample: `.
fn key_loop_end_sample_vec() -> (r: Vec<u8>)
    ensures
        r@ == key_loop_end_sample(),
{
    let r = vec![
        108u8, 111u8, 111u8, 112u8, 95u8, 101u8, 110u8, 100u8, 95u8, 115u8, 97u8, 109u8, 112u8,
        108u8, 101u8, 58u8, 32u8,
    ];
    proof {
        assert(r@ =~= key_loop_end_sample());
    }
    r
}

/// Builds the key `duration_ms: `.
fn key_duration_ms_vec() -> (r: Vec<u8>)
    ensures
        r@ == key_duration_ms(),
{
    let r = vec![
        100u8, 117u8, 114u8, 97u8, 116u8, 105u8, 111u8, 110u8, 95u8, 109u8, 115u8, 58u8, 32u8,
    ];
    proof {
        assert(r@ =~= key_duration_ms());
    }
    r
}

/// Builds the key `duration_sample: `.
fn key_duration_sample_vec() -> (r: Vec<u8>)
    ensures
        r@ == key_duration_sample(),
{
    let r = vec![
        100u8, 117u8, 114u8, 97u8, 116u8, 105u8, 111u8, 110u8, 95u8, 115u8, 97u8, 109u8, 112u8,
        108u8, 101u8, 58u8, 32u8,
    ];
    proof {
        assert(r@ =~= key_duration_sample());
    }
    r
}

/// Appends one `key: value` line for a 32-bit field.
fn push_u32_line(out: &mut Vec<u8>, key: &Vec<u8>, v: u32)
    ensures
        final(out)@ == old(out)@ + key@ + dec_digits(v as nat) + seq![10u8],
{
    push_bytes(out, key);
    push_dec_u64(out, v as u64);
    out.push(10);
    assert(out@ =~= old(out)@ + key@ + dec_digits(v as nat) + seq![10u8]);
}

/// Appends the identifier line, annotated when the table knows the hash.
fn push_name_line(out: &mut Vec<u8>, id: u64, labels: &LabelTable)
    ensures
        final(out)@ == old(out)@ + key_name_id() + dec_digits(id as nat) + annot(id, labels@)
            + seq![10u8],
{
    let k = key_name_id_vec();
    push_bytes(out, &k);
    push_dec_u64(out, id);
    match labels.lookup(id) {
        Option::Some(name) => {
            out.push(32);
            out.push(35);
            out.push(32);
            push_bytes(out, name);
        },
        Option::None => {},
    }
    out.push(10);
    assert(out@ =~= old(out)@ + key_name_id() + dec_digits(id as nat) + annot(id, labels@) + seq![
        10u8,
    ]);
}

/// Appends the text of one entry.
#[verifier::rlimit(60)]
fn push_entry_text(out: &mut Vec<u8>, e: &Entry, labels: &LabelTable)
    ensures
        final(out)@ == old(out)@ + entry_text(*e, labels@),
{
    push_name_line(out, e.name_id, labels);
    let k2 = key_loop_start_ms_vec();
    push_u32_line(out, &k2, e.loop_start_ms);
    let k3 = key_loop_start_sample_vec();
    push_u32_line(out, &k3, e.loop_start_sample);
    let k4 = key_loop_end_ms_vec();
    push_u32_line(out, &k4, e.loop_end_ms);
    let k5 = key_loop_end_sample_vec();
    push_u32_line(out, &k5, e.loop_end_sample);
    let k6 = key_duration_ms_vec();
    push_u32_line(out, &k6, e.duration_ms);
    let k7 = key_duration_sample_vec();
    push_u32_line(out, &k7, e.duration_sample);
    assert(out@ =~= old(out)@ + entry_text(*e, labels@));
}

/// Renders a container as its textual mirror.  The label table serves
/// annotation only: it never changes the numeric values written.
pub fn to_text(file: &BgmPropertyFile, labels: &LabelTable) -> (r: Vec<u8>)
    ensures
        r@ == text_spec(file.entries@, labels@),
{
    let mut out: Vec<u8> = Vec::new();
    let n = file.entries.len();
    let mut i: usize = 0;
    while i < n
        invariant
            i <= n,
            n == file.entries@.len(),
            out@ == text_spec(file.entries@.take(i as int), labels@),
        decreases n - i,
    {
        push_entry_text(&mut out, &file.entries[i], labels);
        proof {
            lemma_text_spec_snoc(file.entries@.take(i as int), file.entries@[i as int], labels@);
            assert(file.entries@.take(i as int + 1) =~= file.entries@.take(i as int).push(
                file.entries@[i as int],
            ));
        }
        i = i + 1;
    }
    proof {
        assert(file.entries@.take(n as int) =~= file.entries@);
    }
    out
}

/// The key stands at `pos`.
pub open spec fn match_at(b: Seq<u8>, pos: int, key: Seq<u8>) -> bool {
    0 <= pos && pos + key.len() <= b.len() && b.subrange(pos, pos + key.len()) == key
}

/// What parsing one `key: value` line of a 32-bit field yields: the value
/// and the position after the line's newline, or the first failure.
pub open spec fn parse_u32_line(b: Seq<u8>, pos: int, key: Seq<u8>) -> Result<(u32, int), Error> {
    if !match_at(b, pos, key) {
        Err(Error::TextFormat { offset: pos as usize })
    } else {
        match parse_u64_spec(b, pos + key.len()) {
            Err(e) => Err(e),
            Ok((v, p)) => if v > u32::MAX {
                Err(Error::TextFormat { offset: (pos + key.len()) as usize })
            } else if p < b.len() && b[p] == 10 {
                Ok((v as u32, p + 1))
            } else {
                Err(Error::TextFormat { offset: p as usize })
            },
        }
    }
}

/// What parsing the identifier line yields: the hash and the position after
/// the line's newline.  Between the digits and the newline an annotation of
/// the form ` # name` is permitted and ignored.
pub open spec fn parse_name_line(b: Seq<u8>, pos: int) -> Result<(u64, int), Error> {
    if !match_at(b, pos, key_name_id()) {
        Err(Error::TextFormat { offset: pos as usize })
    } else {
        match parse_u64_spec(b, pos + key_name_id().len()) {
            Err(e) => Err(e),
            Ok((v, p)) => if p < b.len() && b[p] == 10 {
                Ok((v, p + 1))
            } else if p + 3 <= b.len() && b[p] == 32 && b[p + 1] == 35 && b[p + 2] == 32 {
                let e = line_end(b, p + 3);
                if e < b.len() {
                    Ok((v, e + 1))
                } else {
                    Err(Error::TextFormat { offset: e as usize })
                }
            } else {
                Err(Error::TextFormat { offset: p as usize })
            },
        }
    }
}

/// What parsing one whole entry yields: its seven lines in field order.
pub open spec fn parse_entry_spec(b: Seq<u8>, pos: int) -> Result<(Entry, int), Error> {
    match parse_name_line(b, pos) {
        Err(e) => Err(e),
        Ok((name_id, p1)) => match parse_u32_line(b, p1, key_loop_start_ms()) {
            Err(e) => Err(e),
            Ok((loop_start_ms, p2)) => match parse_u32_line(b, p2, key_loop_start_sample()) {
                Err(e) => Err(e),
                Ok((loop_start_sample, p3)) => match parse_u32_line(b, p3, key_loop_end_ms()) {
                    Err(e) => Err(e),
                    Ok((loop_end_ms, p4)) => match parse_u32_line(b, p4, key_loop_end_sample()) {
                        Err(e) => Err(e),
                        Ok((loop_end_sample, p5)) => match parse_u32_line(
                            b,
                            p5,
                            key_duration_ms(),
                        ) {
                            Err(e) => Err(e),
                            Ok((duration_ms, p6)) => match parse_u32_line(
                                b,
                                p6,
                                key_duration_sample(),
                            ) {
                                Err(e) => Err(e),
                                Ok((duration_sample, p7)) => Ok(
                                    (
                                        Entry {
                                            name_id,
                                            loop_start_ms,
                                            loop_start_sample,
                                            loop_end_ms,
                                            loop_end_sample,
                                            duration_ms,
                                            duration_sample,
                                        },
                                        p7,
                                    ),
                                ),
                            },
                        },
                    },
                },
            },
        },
    }
}

/// A parsed field line ends strictly after it began and within the buffer.
proof fn lemma_parse_u32_line_bounds(b: Seq<u8>, pos: int, key: Seq<u8>)
    ensures
        parse_u32_line(b, pos, key) matches Ok(r) ==> pos < r.1 <= b.len(),
{
    if match_at(b, pos, key) {
        let s = pos + key.len() as int;
        lemma_digits_end(b, s);
    }
}

/// A parsed identifier line ends strictly after it began and within the
/// buffer.
proof fn lemma_parse_name_line_bounds(b: Seq<u8>, pos: int)
    ensures
        parse_name_line(b, pos) matches Ok(r) ==> pos < r.1 <= b.len(),
{
    if match_at(b, pos, key_name_id()) {
        let s = pos + key_name_id().len() as int;
        lemma_digits_end(b, s);
        match parse_u64_spec(b, s) {
            Ok((v, p)) => {
                if !(p < b.len() && b[p] == 10) && p + 3 <= b.len() && b[p] == 32 && b[p + 1] == 35
                    && b[p + 2] == 32 {
                    lemma_line_end(b, p + 3);
                }
            },
            Err(_) => {},
        }
    }
}

/// A parsed entry ends strictly after it began and within the buffer.
proof fn lemma_parse_entry_bounds(b: Seq<u8>, pos: int)
    ensures
        parse_entry_spec(b, pos) matches Ok(r) ==> pos < r.1 <= b.len(),
{
    lemma_parse_name_line_bounds(b, pos);
    match parse_name_line(b, pos) {
        Ok((_, p1)) => {
            lemma_parse_u32_line_bounds(b, p1, key_loop_start_ms());
            match parse_u32_line(b, p1, key_loop_start_ms()) {
                Ok((_, p2)) => {
                    lemma_parse_u32_line_bounds(b, p2, key_loop_start_sample());
                    match parse_u32_line(b, p2, key_loop_start_sample()) {
                        Ok((_, p3)) => {
                            lemma_parse_u32_line_bounds(b, p3, key_loop_end_ms());
                            match parse_u32_line(b, p3, key_loop_end_ms()) {
                                Ok((_, p4)) => {
                                    lemma_parse_u32_line_bounds(b, p4, key_loop_end_sample());
                                    match parse_u32_line(b, p4, key_loop_end_sample()) {
                                        Ok((_, p5)) => {
                                            lemma_parse_u32_line_bounds(b, p5, key_duration_ms());
                                            match parse_u32_line(b, p5, key_duration_ms()) {
                                                Ok((_, p6)) => {
                                                    lemma_parse_u32_line_bounds(
                                                        b,
                                                        p6,
                                                        key_duration_sample(),
                                                    );
                                                },
                                                Err(_) => {},
                                            }
                                        },
                                        Err(_) => {},
                                    }
                                },
                                Err(_) => {},
                            }
                        },
                        Err(_) => {},
                    }
                },
                Err(_) => {},
            }
        },
        Err(_) => {},
    }
}

/// What parsing a whole mirror text yields: entries back to back until the
/// end of the buffer, or the first failure.
pub open spec fn parse_entries_spec(b: Seq<u8>, pos: int) -> Result<Seq<Entry>, Error>
    decreases b.len() - pos,
    via parse_entries_spec_dec
{
    if pos >= b.len() {
        Ok(Seq::empty())
    } else {
        match parse_entry_spec(b, pos) {
            Err(e) => Err(e),
            Ok((en, p)) => match parse_entries_spec(b, p) {
                Err(e) => Err(e),
                Ok(rest) => Ok(seq![en] + rest),
            },
        }
    }
}

#[via_fn]
proof fn parse_entries_spec_dec(b: Seq<u8>, pos: int) {
    if pos < b.len() {
        lemma_parse_entry_bounds(b, pos);
    }
}

/// Tests whether the key stands at `pos`.
fn prefix_at(b: &[u8], pos: usize, key: &Vec<u8>) -> (r: bool)
    requires
        pos <= b@.len(),
    ensures
        r == match_at(b@, pos as int, key@),
{
    let blen: usize = b.len();
    let klen: usize = key.len();
    if blen - pos < klen {
        return false;
    }
    let mut j: usize = 0;
    while j < klen
        invariant
            j <= klen,
            klen == key@.len(),
            blen == b@.len(),
            pos + klen <= blen,
            forall|t: int| 0 <= t < j ==> b@[pos + t] == key@[t],
        decreases klen - j,
    {
        if b[pos + j] != key[j] {
            proof {
                let t = j as int;
                assert(b@.subrange(pos as int, pos as int + klen as int)[t] != key@[t]);
            }
            return false;
        }
        j = j + 1;
    }
    proof {
        assert(b@.subrange(pos as int, pos as int + klen as int) =~= key@);
    }
    true
}

/// Parses one `key: value` line of a 32-bit field.
fn parse_u32_line_at(b: &[u8], pos: usize, key: &Vec<u8>) -> (r: Result<(u32, usize), Error>)
    requires
        pos <= b@.len(),
    ensures
        match r {
            Ok(p) => parse_u32_line(b@, pos as int, key@) == Ok::<(u32, int), Error>(
                (p.0, p.1 as int),
            ) && pos < p.1 <= b@.len(),
            Err(e) => parse_u32_line(b@, pos as int, key@) == Err::<(u32, int), Error>(e),
        },
{
    let blen: usize = b.len();
    if !prefix_at(b, pos, key) {
        return Err(Error::TextFormat { offset: pos });
    }
    let start = pos + key.len();
    match parse_u64_at(b, start) {
        Err(e) => Err(e),
        Ok((v, p)) => {
            if v > 0xFFFF_FFFFu64 {
                return Err(Error::TextFormat { offset: start });
            }
            if p < blen && b[p] == 10 {
                Ok((v as u32, p + 1))
            } else {
                Err(Error::TextFormat { offset: p })
            }
        },
    }
}

/// Parses the identifier line, skipping any ` # name` annotation.
fn parse_name_line_at(b: &[u8], pos: usize, key: &Vec<u8>) -> (r: Result<(u64, usize), Error>)
    requires
        pos <= b@.len(),
        key@ == key_name_id(),
    ensures
        match r {
            Ok(p) => parse_name_line(b@, pos as int) == Ok::<(u64, int), Error>(
                (p.0, p.1 as int),
            ) && pos < p.1 <= b@.len(),
            Err(e) => parse_name_line(b@, pos as int) == Err::<(u64, int), Error>(e),
        },
{
    let blen: usize = b.len();
    if !prefix_at(b, pos, key) {
        return Err(Error::TextFormat { offset: pos });
    }
    let start = pos + key.len();
    match parse_u64_at(b, start) {
        Err(e) => Err(e),
        Ok((v, p)) => {
            if p < blen && b[p] == 10 {
                return Ok((v, p + 1));
            }
            if blen - p >= 3 && b[p] == 32 && b[p + 1] == 35 && b[p + 2] == 32 {
                let e = find_line_end(b, p + 3);
                if e < blen {
                    return Ok((v, e + 1));
                }
                return Err(Error::TextFormat { offset: e });
            }
            Err(Error::TextFormat { offset: p })
        },
    }
}

/// Parses one whole entry.
fn parse_entry_at(b: &[u8], pos: usize) -> (r: Result<(Entry, usize), Error>)
    requires
        pos <= b@.len(),
    ensures
        match r {
            Ok(p) => parse_entry_spec(b@, pos as int) == Ok::<(Entry, int), Error>(
                (p.0, p.1 as int),
            ) && pos < p.1 <= b@.len(),
            Err(e) => parse_entry_spec(b@, pos as int) == Err::<(Entry, int), Error>(e),
        },
{
    let key = key_name_id_vec();
    let (name_id, p1) = match parse_name_line_at(b, pos, &key) {
        Ok(x) => x,
        Err(e) => {
            return Err(e);
        },
    };
    let key = key_loop_start_ms_vec();
    let (loop_start_ms, p2) = match parse_u32_line_at(b, p1, &key) {
        Ok(x) => x,
        Err(e) => {
            return Err(e);
        },
    };
    let key = key_loop_start_sample_vec();
    let (loop_start_sample, p3) = match parse_u32_line_at(b, p2, &key) {
        Ok(x) => x,
        Err(e) => {
            return Err(e);
        },
    };
    let key = key_loop_end_ms_vec();
    let (loop_end_ms, p4) = match parse_u32_line_at(b, p3, &key) {
        Ok(x) => x,
        Err(e) => {
            return Err(e);
        },
    };
    let key = key_loop_end_sample_vec();
    let (loop_end_sample, p5) = match parse_u32_line_at(b, p4, &key) {
        Ok(x) => x,
        Err(e) => {
            return Err(e);
        },
    };
    let key = key_duration_ms_vec();
    let (duration_ms, p6) = match parse_u32_line_at(b, p5, &key) {
        Ok(x) => x,
        Err(e) => {
            return Err(e);
        },
    };
    let key = key_duration_sample_vec();
    let (duration_sample, p7) = match parse_u32_line_at(b, p6, &key) {
        Ok(x) => x,
        Err(e) => {
            return Err(e);
        },
    };
    Ok(
        (
            Entry {
                name_id,
                loop_start_ms,
                loop_start_sample,
                loop_end_ms,
                loop_end_sample,
                duration_ms,
                duration_sample,
            },
            p7,
        ),
    )
}

/// Reconstructs a container from its textual mirror.  Annotations are
/// ignored: the numeric identifier alone decides the value.
pub fn from_text(b: &[u8]) -> (r: Result<BgmPropertyFile, Error>)
    ensures
        match r {
            Ok(f) => parse_entries_spec(b@, 0) == Ok::<Seq<Entry>, Error>(f.entries@),
            Err(e) => parse_entries_spec(b@, 0) == Err::<Seq<Entry>, Error>(e),
        },
{
    let blen: usize = b.len();
    let mut entries: Vec<Entry> = Vec::new();
    let mut pos: usize = 0;
    proof {
        assert(Seq::<Entry>::empty() + parse_entries_spec(b@, 0)->Ok_0 =~= parse_entries_spec(
            b@,
            0,
        )->Ok_0);
    }
    while pos < blen
        invariant
            pos <= blen,
            blen == b@.len(),
            match parse_entries_spec(b@, pos as int) {
                Ok(rest) => parse_entries_spec(b@, 0) == Ok::<Seq<Entry>, Error>(entries@ + rest),
                Err(e) => parse_entries_spec(b@, 0) == Err::<Seq<Entry>, Error>(e),
            },
        decreases blen - pos,
    {
        let ghost entries0 = entries@;
        match parse_entry_at(b, pos) {
            Err(e) => {
                return Err(e);
            },
            Ok((en, p)) => {
                entries.push(en);
                proof {
                    match parse_entries_spec(b@, p as int) {
                        Ok(rest) => {
                            assert(parse_entries_spec(b@, pos as int) == Ok::<Seq<Entry>, Error>(
                                seq![en] + rest,
                            ));
                            assert(entries0 + (seq![en] + rest) =~= entries@ + rest);
                        },
                        Err(e) => {
                            assert(parse_entries_spec(b@, pos as int) == Err::<Seq<Entry>, Error>(
                                e,
                            ));
                        },
                    }
                }
                pos = p;
            },
        }
    }
    proof {
        assert(parse_entries_spec(b@, pos as int) == Ok::<Seq<Entry>, Error>(Seq::empty()));
        assert(entries@ + Seq::<Entry>::empty() =~= entries@);
    }
    Ok(BgmPropertyFile { entries })
}

/// No display name of the table holds a newline byte; a table of that
/// shape never breaks the line structure of the mirror.
pub open spec fn names_newline_free(labels: Seq<(u64, Seq<u8>)>) -> bool {
    forall|i: int, j: int|
        0 <= i < labels.len() && 0 <= j < labels[i].1.len() ==> #[trigger] labels[i].1[j] != 10
}

/// A region of `b` equal to `s1 + s2` splits into a region equal to `s1`
/// and one equal to `s2`.
proof fn lemma_concat_split(b: Seq<u8>, pos: int, s1: Seq<u8>, s2: Seq<u8>)
    requires
        0 <= pos,
        pos + s1.len() + s2.len() <= b.len(),
        b.subrange(pos, pos + s1.len() + s2.len()) == s1 + s2,
    ensures
        b.subrange(pos, pos + s1.len()) == s1,
        b.subrange(pos + s1.len(), pos + s1.len() + s2.len()) == s2,
{
    assert(b.subrange(pos, pos + s1.len()) =~= s1);
    assert forall|j: int| 0 <= j < s2.len() implies b[pos + s1.len() + j] == s2[j] by {
        let n1 = s1.len() as int;
        let n2 = s2.len() as int;
        let whole = b.subrange(pos, pos + n1 + n2);
        assert(whole == s1 + s2);
        assert(whole[n1 + j] == b[pos + n1 + j]);
        assert((s1 + s2)[n1 + j] == s2[j]);
    }
    assert(b.subrange(pos + s1.len(), pos + s1.len() + s2.len()) =~= s2);
}

/// Parsing a rendered 32-bit field line returns its value and the position
/// after its newline.
proof fn lemma_parse_u32_line_of_text(b: Seq<u8>, pos: int, key: Seq<u8>, v: u32)
    requires
        0 <= pos,
        pos + u32_line_text(key, v).len() <= b.len(),
        b.subrange(pos, pos + u32_line_text(key, v).len()) == u32_line_text(key, v),
    ensures
        parse_u32_line(b, pos, key) == Ok::<(u32, int), Error>(
            (v, pos + u32_line_text(key, v).len()),
        ),
{
    let d = dec_digits(v as nat);
    let tail = d + seq![10u8];
    assert(u32_line_text(key, v) =~= key + tail);
    lemma_concat_split(b, pos, key, tail);
    let s = pos + key.len() as int;
    lemma_concat_split(b, s, d, seq![10u8]);
    let p = s + d.len() as int;
    assert(b[p] == b.subrange(p, p + 1)[0]);
    assert(b[p] == 10);
    lemma_parse_u64_of_digits(b, s, v as u64);
}

/// Parsing a rendered identifier line returns the hash and the position
/// after its newline, whether or not it carries an annotation.
proof fn lemma_parse_name_line_of_text(b: Seq<u8>, pos: int, id: u64, labels: Seq<(u64, Seq<u8>)>)
    requires
        0 <= pos,
        pos + name_line_text(id, labels).len() <= b.len(),
        b.subrange(pos, pos + name_line_text(id, labels).len()) == name_line_text(id, labels),
        names_newline_free(labels),
    ensures
        parse_name_line(b, pos) == Ok::<(u64, int), Error>(
            (id, pos + name_line_text(id, labels).len()),
        ),
{
    let key = key_name_id();
    let d = dec_digits(id as nat);
    let a = annot(id, labels);
    assert(name_line_text(id, labels) =~= key + (d + (a + seq![10u8])));
    lemma_concat_split(b, pos, key, d + (a + seq![10u8]));
    let s = pos + key.len() as int;
    lemma_concat_split(b, s, d, a + seq![10u8]);
    let p = s + d.len() as int;
    lemma_concat_split(b, p, a, seq![10u8]);
    let q = p + a.len() as int;
    assert(b[q] == b.subrange(q, q + 1)[0]);
    assert(b[q] == 10);
    match lookup_spec(labels, id) {
        Option::None => {
            assert(a == Seq::<u8>::empty());
            assert(p == q);
            lemma_parse_u64_of_digits(b, s, id);
        },
        Option::Some(name) => {
            assert(a == seq![32u8, 35u8, 32u8] + name);
            assert(b[p] == b.subrange(p, q)[0]);
            assert(b[p + 1] == b.subrange(p, q)[1]);
            assert(b[p + 2] == b.subrange(p, q)[2]);
            assert(b[p] == 32 && b[p + 1] == 35 && b[p + 2] == 32);
            assert(!is_digit(b[p]));
            lemma_parse_u64_of_digits(b, s, id);
            lemma_lookup_from_table(labels, id);
            assert forall|j: int| p + 3 <= j < q implies #[trigger] b[j] != 10 by {
                assert(b[j] == b.subrange(p, q)[j - p]);
                assert(b.subrange(p, q)[j - p] == name[j - p - 3]);
                let i = choose|i: int|
                    0 <= i < labels.len() && #[trigger] labels[i].1 == name;
                assert(labels[i].1[j - p - 3] != 10);
            }
            lemma_line_end_determined(b, p + 3, q);
        },
    }
}

/// Parsing a rendered entry returns that entry and the position after its
/// last line.
proof fn lemma_parse_entry_of_text(b: Seq<u8>, pos: int, e: Entry, labels: Seq<(u64, Seq<u8>)>)
    requires
        0 <= pos,
        pos + entry_text(e, labels).len() <= b.len(),
        b.subrange(pos, pos + entry_text(e, labels).len()) == entry_text(e, labels),
        names_newline_free(labels),
    ensures
        parse_entry_spec(b, pos) == Ok::<(Entry, int), Error>(
            (e, pos + entry_text(e, labels).len()),
        ),
{
    let l1 = name_line_text(e.name_id, labels);
    let l2 = u32_line_text(key_loop_start_ms(), e.loop_start_ms);
    let l3 = u32_line_text(key_loop_start_sample(), e.loop_start_sample);
    let l4 = u32_line_text(key_loop_end_ms(), e.loop_end_ms);
    let l5 = u32_line_text(key_loop_end_sample(), e.loop_end_sample);
    let l6 = u32_line_text(key_duration_ms(), e.duration_ms);
    let l7 = u32_line_text(key_duration_sample(), e.duration_sample);
    lemma_concat_split(b, pos, l1, l2 + (l3 + (l4 + (l5 + (l6 + l7)))));
    lemma_parse_name_line_of_text(b, pos, e.name_id, labels);
    let p1 = pos + l1.len();
    lemma_concat_split(b, p1, l2, l3 + (l4 + (l5 + (l6 + l7))));
    lemma_parse_u32_line_of_text(b, p1, key_loop_start_ms(), e.loop_start_ms);
    let p2 = p1 + l2.len();
    lemma_concat_split(b, p2, l3, l4 + (l5 + (l6 + l7)));
    lemma_parse_u32_line_of_text(b, p2, key_loop_start_sample(), e.loop_start_sample);
    let p3 = p2 + l3.len();
    lemma_concat_split(b, p3, l4, l5 + (l6 + l7));
    lemma_parse_u32_line_of_text(b, p3, key_loop_end_ms(), e.loop_end_ms);
    let p4 = p3 + l4.len();
    lemma_concat_split(b, p4, l5, l6 + l7);
    lemma_parse_u32_line_of_text(b, p4, key_loop_end_sample(), e.loop_end_sample);
    let p5 = p4 + l5.len();
    lemma_concat_split(b, p5, l6, l7);
    lemma_parse_u32_line_of_text(b, p5, key_duration_ms(), e.duration_ms);
    let p6 = p5 + l6.len();
    lemma_parse_u32_line_of_text(b, p6, key_duration_sample(), e.duration_sample);
}

/// Parsing a region that holds the text of a sequence of entries, running
/// to the buffer's end, returns that sequence.
proof fn lemma_parse_entries_of_text(
    b: Seq<u8>,
    pos: int,
    es: Seq<Entry>,
    labels: Seq<(u64, Seq<u8>)>,
)
    requires
        0 <= pos <= b.len(),
        b.len() == pos + text_spec(es, labels).len(),
        b.subrange(pos, b.len() as int) == text_spec(es, labels),
        names_newline_free(labels),
    ensures
        parse_entries_spec(b, pos) == Ok::<Seq<Entry>, Error>(es),
    decreases es.len(),
{
    if es.len() == 0 {
        assert(parse_entries_spec(b, pos) == Ok::<Seq<Entry>, Error>(Seq::empty()));
        assert(Seq::<Entry>::empty() =~= es);
    } else {
        let l1 = entry_text(es[0], labels);
        let rest = text_spec(es.skip(1), labels);
        assert(text_spec(es, labels) == l1 + rest);
        lemma_concat_split(b, pos, l1, rest);
        assert(l1.len() >= key_name_id().len());
        lemma_parse_entry_of_text(b, pos, es[0], labels);
        let p = pos + l1.len();
        lemma_parse_entries_of_text(b, p, es.skip(1), labels);
        assert(seq![es[0]] + es.skip(1) =~= es);
    }
}

/// Textual mirror fidelity: for any entry sequence and any label table
/// whose names hold no newline, parsing the rendered mirror returns the
/// sequence exactly.  The annotation is cosmetic: the result does not
/// depend on the table.
pub proof fn lemma_text_round_trip(es: Seq<Entry>, labels: Seq<(u64, Seq<u8>)>)
    requires
        names_newline_free(labels),
    ensures
        parse_entries_spec(text_spec(es, labels), 0) == Ok::<Seq<Entry>, Error>(es),
{
    let b = text_spec(es, labels);
    assert(b.subrange(0, b.len() as int) =~= b);
    lemma_parse_entries_of_text(b, 0, es, labels);
}

} // verus!
