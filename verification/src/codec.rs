//! The persisted representation of a store: a length-prefixed byte format,
//! its serializer, and its parser.
//!
//! The format, per store: a 32-bit little-endian chunk count, then each
//! chunk as a column count followed by its columns; a column is an identity
//! (two optional strings and one string, strings as length-prefixed UTF-8)
//! followed by a value count and the length-prefixed value payloads.  A parse
//! must consume the input exactly.

use vstd::prelude::*;
use crate::batch::{column_views, Batch, ColumnView, TaggedBatch};
use crate::identity::{opt_view, Identity, IdentityView};
use crate::store::{chunk_views, session_header, Chunk, Store};
use vstd::string::StrSliceExecFns;
use vstd::utf8::{decode_utf8, encode_utf8, valid_utf8};

verus! {

/// The persisted input could not be parsed: malformed or truncated bytes.
///
/// Loading fails with this and nothing else; no partial store is returned.
#[derive(Debug, PartialEq, Eq, Structural)]
pub struct LoadError;

/// The largest count or length the format's 32-bit length fields can carry.
pub open spec fn fits_len_field(n: nat) -> bool {
    n < 0x1_0000_0000
}

/// A 32-bit value, little endian.
pub open spec fn spec_le32(n: u32) -> Seq<u8> {
    seq![
        (n & 0xff) as u8,
        ((n >> 8) & 0xff) as u8,
        ((n >> 16) & 0xff) as u8,
        ((n >> 24) & 0xff) as u8,
    ]
}

/// The 32-bit value carried by four little-endian bytes.
pub open spec fn spec_read32(b0: u8, b1: u8, b2: u8, b3: u8) -> u32 {
    (b0 as u32) | ((b1 as u32) << 8) | ((b2 as u32) << 16) | ((b3 as u32) << 24)
}

proof fn lemma_read32_le32(n: u32)
    ensures
        spec_read32(
            (n & 0xff) as u8,
            ((n >> 8) & 0xff) as u8,
            ((n >> 16) & 0xff) as u8,
            ((n >> 24) & 0xff) as u8,
        ) == n,
{
    assert((((n & 0xff) as u8) as u32) | ((((n >> 8) & 0xff) as u8) as u32) << 8 | ((((n >> 16)
        & 0xff) as u8) as u32) << 16 | ((((n >> 24) & 0xff) as u8) as u32) << 24 == n)
        by (bit_vector);
}

/// A length-prefixed byte string.
pub open spec fn ser_bytes(b: Seq<u8>) -> Seq<u8> {
    spec_le32(b.len() as u32) + b
}

/// A length-prefixed UTF-8 string.
pub open spec fn ser_string(s: Seq<char>) -> Seq<u8> {
    ser_bytes(encode_utf8(s))
}

/// An optional string: a presence byte, then the string if present.
pub open spec fn ser_opt_string(s: Option<Seq<char>>) -> Seq<u8> {
    match s {
        None => seq![0u8],
        Some(s) => seq![1u8] + ser_string(s),
    }
}

/// An identity: its three parts in order.
pub open spec fn ser_identity(id: IdentityView) -> Seq<u8> {
    ser_opt_string(id.archetype_name) + ser_opt_string(id.archetype_field_name) + ser_string(
        id.component_name,
    )
}

/// A column's values, each length-prefixed, in order.
pub open spec fn ser_values(vals: Seq<Seq<u8>>) -> Seq<u8>
    decreases vals.len(),
{
    if vals.len() == 0 {
        Seq::empty()
    } else {
        ser_bytes(vals[0]) + ser_values(vals.skip(1))
    }
}

/// A column: its identity, then its value count and values.
pub open spec fn ser_column(c: ColumnView) -> Seq<u8> {
    ser_identity(c.identity) + spec_le32(c.values.len() as u32) + ser_values(c.values)
}

/// A chunk's columns, in order.
pub open spec fn ser_columns(cols: Seq<ColumnView>) -> Seq<u8>
    decreases cols.len(),
{
    if cols.len() == 0 {
        Seq::empty()
    } else {
        ser_column(cols[0]) + ser_columns(cols.skip(1))
    }
}

/// A chunk: its column count, then its columns.
pub open spec fn ser_chunk(cols: Seq<ColumnView>) -> Seq<u8> {
    spec_le32(cols.len() as u32) + ser_columns(cols)
}

/// A store's chunks, in order.
pub open spec fn ser_chunks(chunks: Seq<Seq<ColumnView>>) -> Seq<u8>
    decreases chunks.len(),
{
    if chunks.len() == 0 {
        Seq::empty()
    } else {
        ser_chunk(chunks[0]) + ser_chunks(chunks.skip(1))
    }
}

/// A whole store: its chunk count, then its chunks.
pub open spec fn ser_store(chunks: Seq<Seq<ColumnView>>) -> Seq<u8> {
    spec_le32(chunks.len() as u32) + ser_chunks(chunks)
}

/// Every count and length of the string fits the format's length fields.
pub open spec fn string_encodable(s: Seq<char>) -> bool {
    fits_len_field(encode_utf8(s).len())
}

pub open spec fn opt_string_encodable(s: Option<Seq<char>>) -> bool {
    match s {
        None => true,
        Some(s) => string_encodable(s),
    }
}

pub open spec fn identity_encodable(id: IdentityView) -> bool {
    opt_string_encodable(id.archetype_name) && opt_string_encodable(id.archetype_field_name)
        && string_encodable(id.component_name)
}

pub open spec fn column_encodable(c: ColumnView) -> bool {
    identity_encodable(c.identity) && fits_len_field(c.values.len()) && forall|i: int|
        0 <= i < c.values.len() ==> fits_len_field((#[trigger] c.values[i]).len())
}

pub open spec fn chunk_encodable(cols: Seq<ColumnView>) -> bool {
    fits_len_field(cols.len()) && forall|i: int|
        0 <= i < cols.len() ==> column_encodable(#[trigger] cols[i])
}

/// Every count and length of the store fits the format's length fields: the
/// machine limit under which the store can be persisted.
pub open spec fn store_encodable(chunks: Seq<Seq<ColumnView>>) -> bool {
    fits_len_field(chunks.len()) && forall|i: int|
        0 <= i < chunks.len() ==> chunk_encodable(#[trigger] chunks[i])
}

/// Reads a 32-bit little-endian value; fails on fewer than four bytes.
pub open spec fn parse_u32(b: Seq<u8>) -> Option<(u32, Seq<u8>)> {
    if b.len() < 4 {
        None
    } else {
        Some((spec_read32(b[0], b[1], b[2], b[3]), b.skip(4)))
    }
}

/// Reads a length-prefixed byte string; fails on a truncated payload.
pub open spec fn parse_bytes(b: Seq<u8>) -> Option<(Seq<u8>, Seq<u8>)> {
    match parse_u32(b) {
        None => None,
        Some((n, r)) => if r.len() < n as int {
            None
        } else {
            Some((r.take(n as int), r.skip(n as int)))
        },
    }
}

/// Reads a length-prefixed string; fails on bytes that are not valid UTF-8.
pub open spec fn parse_string(b: Seq<u8>) -> Option<(Seq<char>, Seq<u8>)> {
    match parse_bytes(b) {
        None => None,
        Some((bs, r)) => if valid_utf8(bs) {
            Some((decode_utf8(bs), r))
        } else {
            None
        },
    }
}

/// Reads an optional string; fails on a presence byte other than 0 or 1.
pub open spec fn parse_opt_string(b: Seq<u8>) -> Option<(Option<Seq<char>>, Seq<u8>)> {
    if b.len() < 1 {
        None
    } else if b[0] == 0 {
        Some((None, b.skip(1)))
    } else if b[0] == 1 {
        match parse_string(b.skip(1)) {
            None => None,
            Some((s, r)) => Some((Some(s), r)),
        }
    } else {
        None
    }
}

/// Reads an identity: its three parts in order.
pub open spec fn parse_identity(b: Seq<u8>) -> Option<(IdentityView, Seq<u8>)> {
    match parse_opt_string(b) {
        None => None,
        Some((an, r1)) => match parse_opt_string(r1) {
            None => None,
            Some((afn, r2)) => match parse_string(r2) {
                None => None,
                Some((cn, r3)) => Some(
                    (
                        IdentityView {
                            archetype_name: an,
                            archetype_field_name: afn,
                            component_name: cn,
                        },
                        r3,
                    ),
                ),
            },
        },
    }
}

/// Reads exactly `n` length-prefixed values.
pub open spec fn parse_values(b: Seq<u8>, n: nat) -> Option<(Seq<Seq<u8>>, Seq<u8>)>
    decreases n,
{
    if n == 0 {
        Some((Seq::empty(), b))
    } else {
        match parse_bytes(b) {
            None => None,
            Some((v, r)) => match parse_values(r, (n - 1) as nat) {
                None => None,
                Some((vs, r2)) => Some((seq![v] + vs, r2)),
            },
        }
    }
}

/// Reads a column: its identity, value count, and values.
pub open spec fn parse_column(b: Seq<u8>) -> Option<(ColumnView, Seq<u8>)> {
    match parse_identity(b) {
        None => None,
        Some((id, r)) => match parse_u32(r) {
            None => None,
            Some((n, r2)) => match parse_values(r2, n as nat) {
                None => None,
                Some((vals, r3)) => Some((ColumnView { identity: id, values: vals }, r3)),
            },
        },
    }
}

/// Reads exactly `n` columns.
pub open spec fn parse_columns(b: Seq<u8>, n: nat) -> Option<(Seq<ColumnView>, Seq<u8>)>
    decreases n,
{
    if n == 0 {
        Some((Seq::empty(), b))
    } else {
        match parse_column(b) {
            None => None,
            Some((c, r)) => match parse_columns(r, (n - 1) as nat) {
                None => None,
                Some((cs, r2)) => Some((seq![c] + cs, r2)),
            },
        }
    }
}

/// Reads a chunk: its column count, then its columns.
pub open spec fn parse_chunk(b: Seq<u8>) -> Option<(Seq<ColumnView>, Seq<u8>)> {
    match parse_u32(b) {
        None => None,
        Some((n, r)) => parse_columns(r, n as nat),
    }
}

/// Reads exactly `n` chunks.
pub open spec fn parse_chunks(b: Seq<u8>, n: nat) -> Option<(Seq<Seq<ColumnView>>, Seq<u8>)>
    decreases n,
{
    if n == 0 {
        Some((Seq::empty(), b))
    } else {
        match parse_chunk(b) {
            None => None,
            Some((c, r)) => match parse_chunks(r, (n - 1) as nat) {
                None => None,
                Some((cs, r2)) => Some((seq![c] + cs, r2)),
            },
        }
    }
}

/// What a persisted input means: the store's chunks, provided the whole input
/// parses and is consumed exactly; `None` on malformed or truncated input.
pub open spec fn parse_store(b: Seq<u8>) -> Option<Seq<Seq<ColumnView>>> {
    match parse_u32(b) {
        None => None,
        Some((n, r)) => match parse_chunks(r, n as nat) {
            None => None,
            Some((chunks, r2)) => if r2.len() == 0 {
                Some(chunks)
            } else {
                None
            },
        },
    }
}


proof fn lemma_parse_u32_round(n: u32, rest: Seq<u8>)
    ensures
        parse_u32(spec_le32(n) + rest) == Some((n, rest)),
{
    let b = spec_le32(n) + rest;
    assert(b[0] == (n & 0xff) as u8);
    assert(b[1] == ((n >> 8) & 0xff) as u8);
    assert(b[2] == ((n >> 16) & 0xff) as u8);
    assert(b[3] == ((n >> 24) & 0xff) as u8);
    lemma_read32_le32(n);
    assert(b.skip(4) =~= rest);
}

proof fn lemma_parse_bytes_round(v: Seq<u8>, rest: Seq<u8>)
    requires
        fits_len_field(v.len()),
    ensures
        parse_bytes(ser_bytes(v) + rest) == Some((v, rest)),
{
    let n = v.len() as u32;
    assert(ser_bytes(v) + rest =~= spec_le32(n) + (v + rest));
    lemma_parse_u32_round(n, v + rest);
    let r = v + rest;
    assert(r.len() >= n as int);
    assert(r.take(n as int) =~= v);
    assert(r.skip(n as int) =~= rest);
}

proof fn lemma_parse_string_round(s: Seq<char>, rest: Seq<u8>)
    requires
        string_encodable(s),
    ensures
        parse_string(ser_string(s) + rest) == Some((s, rest)),
{
    lemma_parse_bytes_round(encode_utf8(s), rest);
    vstd::utf8::encode_utf8_valid_utf8(s);
    vstd::utf8::encode_utf8_decode_utf8(s);
}

proof fn lemma_parse_opt_string_round(s: Option<Seq<char>>, rest: Seq<u8>)
    requires
        opt_string_encodable(s),
    ensures
        parse_opt_string(ser_opt_string(s) + rest) == Some((s, rest)),
{
    match s {
        None => {
            let b = ser_opt_string(s) + rest;
            assert(b[0] == 0);
            assert(b.skip(1) =~= rest);
        },
        Some(x) => {
            let b = ser_opt_string(s) + rest;
            assert(b =~= seq![1u8] + (ser_string(x) + rest));
            assert(b[0] == 1);
            assert(b.skip(1) =~= ser_string(x) + rest);
            lemma_parse_string_round(x, rest);
        },
    }
}

proof fn lemma_parse_identity_round(id: IdentityView, rest: Seq<u8>)
    requires
        identity_encodable(id),
    ensures
        parse_identity(ser_identity(id) + rest) == Some((id, rest)),
{
    assert(ser_identity(id) + rest =~= ser_opt_string(id.archetype_name) + (ser_opt_string(
        id.archetype_field_name,
    ) + (ser_string(id.component_name) + rest)));
    lemma_parse_opt_string_round(
        id.archetype_name,
        ser_opt_string(id.archetype_field_name) + (ser_string(id.component_name) + rest),
    );
    lemma_parse_opt_string_round(id.archetype_field_name, ser_string(id.component_name) + rest);
    lemma_parse_string_round(id.component_name, rest);
    assert((IdentityView {
        archetype_name: id.archetype_name,
        archetype_field_name: id.archetype_field_name,
        component_name: id.component_name,
    }) =~= id);
}

proof fn lemma_parse_values_round(vals: Seq<Seq<u8>>, rest: Seq<u8>)
    requires
        forall|i: int| 0 <= i < vals.len() ==> fits_len_field((#[trigger] vals[i]).len()),
    ensures
        parse_values(ser_values(vals) + rest, vals.len()) == Some((vals, rest)),
    decreases vals.len(),
{
    if vals.len() == 0 {
        assert(ser_values(vals) + rest =~= rest);
    } else {
        assert(ser_values(vals) + rest =~= ser_bytes(vals[0]) + (ser_values(vals.skip(1))
            + rest));
        lemma_parse_bytes_round(vals[0], ser_values(vals.skip(1)) + rest);
        assert forall|i: int|
            0 <= i < vals.skip(1).len() implies fits_len_field(
            (#[trigger] vals.skip(1)[i]).len(),
        ) by {
            assert(vals.skip(1)[i] == vals[i + 1]);
        }
        lemma_parse_values_round(vals.skip(1), rest);
        assert(seq![vals[0]] + vals.skip(1) =~= vals);
    }
}

proof fn lemma_parse_column_round(c: ColumnView, rest: Seq<u8>)
    requires
        column_encodable(c),
    ensures
        parse_column(ser_column(c) + rest) == Some((c, rest)),
{
    let n = c.values.len() as u32;
    assert(ser_column(c) + rest =~= ser_identity(c.identity) + (spec_le32(n) + (ser_values(
        c.values,
    ) + rest)));
    lemma_parse_identity_round(c.identity, spec_le32(n) + (ser_values(c.values) + rest));
    lemma_parse_u32_round(n, ser_values(c.values) + rest);
    lemma_parse_values_round(c.values, rest);
    assert(n as nat == c.values.len());
    assert((ColumnView { identity: c.identity, values: c.values }) =~= c);
}

#[verifier::rlimit(100)]
proof fn lemma_parse_columns_round(cols: Seq<ColumnView>, rest: Seq<u8>)
    requires
        forall|i: int| 0 <= i < cols.len() ==> column_encodable(#[trigger] cols[i]),
    ensures
        parse_columns(ser_columns(cols) + rest, cols.len()) == Some((cols, rest)),
    decreases cols.len(),
{
    if cols.len() == 0 {
        assert(ser_columns(cols) + rest =~= rest);
    } else {
        assert(ser_columns(cols) + rest =~= ser_column(cols[0]) + (ser_columns(cols.skip(1))
            + rest));
        lemma_parse_column_round(cols[0], ser_columns(cols.skip(1)) + rest);
        assert forall|i: int|
            0 <= i < cols.skip(1).len() implies column_encodable(#[trigger] cols.skip(1)[i]) by {
            assert(cols.skip(1)[i] == cols[i + 1]);
        }
        lemma_parse_columns_round(cols.skip(1), rest);
        assert(seq![cols[0]] + cols.skip(1) =~= cols);
    }
}

proof fn lemma_parse_chunk_round(cols: Seq<ColumnView>, rest: Seq<u8>)
    requires
        chunk_encodable(cols),
    ensures
        parse_chunk(ser_chunk(cols) + rest) == Some((cols, rest)),
{
    let n = cols.len() as u32;
    assert(ser_chunk(cols) + rest =~= spec_le32(n) + (ser_columns(cols) + rest));
    lemma_parse_u32_round(n, ser_columns(cols) + rest);
    assert(n as nat == cols.len());
    lemma_parse_columns_round(cols, rest);
}

#[verifier::rlimit(100)]
proof fn lemma_parse_chunks_round(chunks: Seq<Seq<ColumnView>>, rest: Seq<u8>)
    requires
        forall|i: int| 0 <= i < chunks.len() ==> chunk_encodable(#[trigger] chunks[i]),
    ensures
        parse_chunks(ser_chunks(chunks) + rest, chunks.len()) == Some((chunks, rest)),
    decreases chunks.len(),
{
    if chunks.len() == 0 {
        assert(ser_chunks(chunks) + rest =~= rest);
    } else {
        vstd::seq_lib::lemma_concat_associative(
            ser_chunk(chunks[0]),
            ser_chunks(chunks.skip(1)),
            rest,
        );
        lemma_parse_chunk_round(chunks[0], ser_chunks(chunks.skip(1)) + rest);
        assert forall|i: int|
            0 <= i < chunks.skip(1).len() implies chunk_encodable(
            #[trigger] chunks.skip(1)[i],
        ) by {
            assert(chunks.skip(1)[i] == chunks[i + 1]);
        }
        lemma_parse_chunks_round(chunks.skip(1), rest);
        assert(seq![chunks[0]] + chunks.skip(1) =~= chunks);
    }
}

/// The persistence round trip: parsing the exact bytes an encodable store
/// serializes to yields that store's chunks back, in order, unchanged.
pub proof fn lemma_store_round_trip(chunks: Seq<Seq<ColumnView>>)
    requires
        store_encodable(chunks),
    ensures
        parse_store(ser_store(chunks)) == Some(chunks),
{
    let n = chunks.len() as u32;
    lemma_parse_u32_round(n, ser_chunks(chunks));
    assert(n as nat == chunks.len());
    lemma_parse_chunks_round(chunks, Seq::empty());
    assert(ser_chunks(chunks) + Seq::<u8>::empty() =~= ser_chunks(chunks));
}

/// An input with too few bytes even for the chunk count, in particular an
/// empty one, is malformed.
pub proof fn lemma_parse_store_short_input(b: Seq<u8>)
    requires
        b.len() < 4,
    ensures
        parse_store(b) is None,
{
}


proof fn lemma_ser_values_snoc(vals: Seq<Seq<u8>>, v: Seq<u8>)
    ensures
        ser_values(vals.push(v)) == ser_values(vals) + ser_bytes(v),
    decreases vals.len(),
{
    if vals.len() == 0 {
        assert(vals.push(v)[0] == v);
        assert(vals.push(v).skip(1) =~= vals);
        assert(ser_values(vals.push(v)) =~= ser_values(vals) + ser_bytes(v));
    } else {
        assert(vals.push(v)[0] == vals[0]);
        assert(vals.push(v).skip(1) =~= vals.skip(1).push(v));
        lemma_ser_values_snoc(vals.skip(1), v);
        vstd::seq_lib::lemma_concat_associative(
            ser_bytes(vals[0]),
            ser_values(vals.skip(1)),
            ser_bytes(v),
        );
    }
}

proof fn lemma_ser_columns_snoc(cols: Seq<ColumnView>, c: ColumnView)
    ensures
        ser_columns(cols.push(c)) == ser_columns(cols) + ser_column(c),
    decreases cols.len(),
{
    if cols.len() == 0 {
        assert(cols.push(c)[0] == c);
        assert(cols.push(c).skip(1) =~= cols);
        assert(ser_columns(cols.push(c)) =~= ser_columns(cols) + ser_column(c));
    } else {
        assert(cols.push(c)[0] == cols[0]);
        assert(cols.push(c).skip(1) =~= cols.skip(1).push(c));
        lemma_ser_columns_snoc(cols.skip(1), c);
        vstd::seq_lib::lemma_concat_associative(
            ser_column(cols[0]),
            ser_columns(cols.skip(1)),
            ser_column(c),
        );
    }
}

proof fn lemma_ser_chunks_snoc(chunks: Seq<Seq<ColumnView>>, c: Seq<ColumnView>)
    ensures
        ser_chunks(chunks.push(c)) == ser_chunks(chunks) + ser_chunk(c),
    decreases chunks.len(),
{
    if chunks.len() == 0 {
        assert(chunks.push(c)[0] == c);
        assert(chunks.push(c).skip(1) =~= chunks);
        assert(ser_chunks(chunks.push(c)) =~= ser_chunks(chunks) + ser_chunk(c));
    } else {
        assert(chunks.push(c)[0] == chunks[0]);
        assert(chunks.push(c).skip(1) =~= chunks.skip(1).push(c));
        lemma_ser_chunks_snoc(chunks.skip(1), c);
        vstd::seq_lib::lemma_concat_associative(
            ser_chunk(chunks[0]),
            ser_chunks(chunks.skip(1)),
            ser_chunk(c),
        );
    }
}

fn write_le32(out: &mut Vec<u8>, n: u32)
    ensures
        final(out)@ == old(out)@ + spec_le32(n),
{
    proof {
        assert(n & 0xff < 256 && (n >> 8) & 0xff < 256 && (n >> 16) & 0xff < 256 && (n >> 24)
            & 0xff < 256) by (bit_vector);
    }
    out.push((n & 0xff) as u8);
    out.push(((n >> 8) & 0xff) as u8);
    out.push(((n >> 16) & 0xff) as u8);
    out.push(((n >> 24) & 0xff) as u8);
    proof {
        assert(out@ =~= old(out)@ + spec_le32(n));
    }
}

fn write_bytes(out: &mut Vec<u8>, b: &Vec<u8>)
    requires
        fits_len_field(b@.len()),
    ensures
        final(out)@ == old(out)@ + ser_bytes(b@),
{
    write_le32(out, b.len() as u32);
    let ghost mid = out@;
    proof {
        assert(mid + b@.take(0) =~= mid);
    }
    let mut i: usize = 0;
    while i < b.len()
        invariant
            i <= b.len(),
            out@ == mid + b@.take(i as int),
        decreases b.len() - i,
    {
        out.push(b[i]);
        proof {
            assert(out@ =~= mid + b@.take(i as int + 1));
        }
        i += 1;
    }
    proof {
        assert(b@.take(b@.len() as int) =~= b@);
        assert(out@ =~= old(out)@ + ser_bytes(b@));
    }
}

fn write_string(out: &mut Vec<u8>, s: &str)
    requires
        string_encodable(s@),
    ensures
        final(out)@ == old(out)@ + ser_string(s@),
{
    let bytes = s.as_bytes_vec();
    write_bytes(out, &bytes);
}

fn write_opt_string(out: &mut Vec<u8>, s: &Option<String>)
    requires
        opt_string_encodable(opt_view(*s)),
    ensures
        final(out)@ == old(out)@ + ser_opt_string(opt_view(*s)),
{
    match s {
        None => {
            out.push(0u8);
            proof {
                assert(out@ =~= old(out)@ + ser_opt_string(opt_view(*s)));
            }
        },
        Some(x) => {
            out.push(1u8);
            write_string(out, x.as_str());
            proof {
                assert(out@ =~= old(out)@ + ser_opt_string(opt_view(*s)));
            }
        },
    }
}

fn write_identity(out: &mut Vec<u8>, id: &Identity)
    requires
        identity_encodable(id@),
    ensures
        final(out)@ == old(out)@ + ser_identity(id@),
{
    write_opt_string(out, &id.archetype_name);
    write_opt_string(out, &id.archetype_field_name);
    write_string(out, id.component_name.as_str());
    proof {
        assert(out@ =~= old(out)@ + ser_identity(id@));
    }
}

fn write_column(out: &mut Vec<u8>, c: &TaggedBatch)
    requires
        column_encodable(c@),
    ensures
        final(out)@ == old(out)@ + ser_column(c@),
{
    write_identity(out, &c.identity);
    write_le32(out, c.batch.values.len() as u32);
    let ghost mid = out@;
    proof {
        assert(ser_values(c.batch@.take(0)) =~= Seq::<u8>::empty());
        assert(mid + ser_values(c.batch@.take(0)) =~= mid);
    }
    let mut i: usize = 0;
    while i < c.batch.values.len()
        invariant
            i <= c.batch.values.len(),
            column_encodable(c@),
            out@ == mid + ser_values(c.batch@.take(i as int)),
        decreases c.batch.values.len() - i,
    {
        proof {
            assert(c.batch@[i as int] == c.batch.values@[i as int]@);
            assert(c@.values == c.batch@);
        }
        write_bytes(out, &c.batch.values[i]);
        proof {
            assert(c.batch@.take(i as int + 1) =~= c.batch@.take(i as int).push(
                c.batch@[i as int],
            ));
            lemma_ser_values_snoc(c.batch@.take(i as int), c.batch@[i as int]);
        }
        i += 1;
    }
    proof {
        assert(c.batch@.take(c.batch@.len() as int) =~= c.batch@);
        assert(out@ =~= old(out)@ + ser_column(c@));
    }
}

fn write_chunk(out: &mut Vec<u8>, c: &Chunk)
    requires
        chunk_encodable(c@),
    ensures
        final(out)@ == old(out)@ + ser_chunk(c@),
{
    write_le32(out, c.columns.len() as u32);
    let ghost mid = out@;
    proof {
        assert(ser_columns(c@.take(0)) =~= Seq::<u8>::empty());
        assert(mid + ser_columns(c@.take(0)) =~= mid);
    }
    let mut i: usize = 0;
    while i < c.columns.len()
        invariant
            i <= c.columns.len(),
            chunk_encodable(c@),
            c@.len() == c.columns.len(),
            out@ == mid + ser_columns(c@.take(i as int)),
        decreases c.columns.len() - i,
    {
        proof {
            assert(c@[i as int] == c.columns@[i as int]@);
        }
        write_column(out, &c.columns[i]);
        proof {
            assert(c@.take(i as int + 1) =~= c@.take(i as int).push(c@[i as int]));
            lemma_ser_columns_snoc(c@.take(i as int), c@[i as int]);
        }
        i += 1;
    }
    proof {
        assert(c@.take(c@.len() as int) =~= c@);
        assert(out@ =~= old(out)@ + ser_chunk(c@));
    }
}

impl Store {
    /// Serializes the store into its persisted representation, the exact
    /// bytes that [`Store::open`] parses back.  The store's counts and
    /// lengths must fit the format's 32-bit length fields.
    pub fn save(&self) -> (r: Vec<u8>)
        requires
            store_encodable(self@),
        ensures
            r@ == ser_store(self@),
    {
        let mut out: Vec<u8> = Vec::new();
        write_le32(&mut out, self.chunks.len() as u32);
        let ghost mid = out@;
        proof {
            assert(ser_chunks(self@.take(0)) =~= Seq::<u8>::empty());
            assert(mid + ser_chunks(self@.take(0)) =~= mid);
        }
        let mut i: usize = 0;
        while i < self.chunks.len()
            invariant
                i <= self.chunks.len(),
                store_encodable(self@),
                self@.len() == self.chunks.len(),
                out@ == mid + ser_chunks(self@.take(i as int)),
            decreases self.chunks.len() - i,
        {
            proof {
                assert(self@[i as int] == self.chunks@[i as int]@);
            }
            write_chunk(&mut out, &self.chunks[i]);
            proof {
                assert(self@.take(i as int + 1) =~= self@.take(i as int).push(self@[i as int]));
                lemma_ser_chunks_snoc(self@.take(i as int), self@[i as int]);
            }
            i += 1;
        }
        proof {
            assert(self@.take(self@.len() as int) =~= self@);
            assert(out@ =~= ser_store(self@));
        }
        out
    }
}


/// Relies on std's `str::from_utf8`: it returns `Ok` exactly when the bytes
/// are valid UTF-8, and the returned string is the decoding of those bytes.
#[verifier::external_body]
fn bytes_to_string(bytes: &Vec<u8>) -> (r: Option<String>)
    ensures
        r is Some <==> valid_utf8(bytes@),
        r matches Some(s) ==> s@ == decode_utf8(bytes@),
{
    match std::str::from_utf8(bytes.as_slice()) {
        Ok(s) => Some(s.to_owned()),
        Err(_) => None,
    }
}

fn read_u32(input: &Vec<u8>, pos: usize) -> (r: Option<(u32, usize)>)
    requires
        pos <= input@.len(),
    ensures
        match r {
            Some(x) => pos <= x.1 <= input@.len() && parse_u32(input@.skip(pos as int)) == Some(
                (x.0, input@.skip(x.1 as int)),
            ),
            None => parse_u32(input@.skip(pos as int)) is None,
        },
{
    if input.len() - pos < 4 {
        return None;
    }
    let b0 = input[pos];
    let b1 = input[pos + 1];
    let b2 = input[pos + 2];
    let b3 = input[pos + 3];
    let n = (b0 as u32) | ((b1 as u32) << 8) | ((b2 as u32) << 16) | ((b3 as u32) << 24);
    proof {
        let b = input@.skip(pos as int);
        assert(b[0] == b0 && b[1] == b1 && b[2] == b2 && b[3] == b3);
        assert(b.skip(4) =~= input@.skip(pos as int + 4));
    }
    Some((n, pos + 4))
}

fn read_bytes(input: &Vec<u8>, pos: usize) -> (r: Option<(Vec<u8>, usize)>)
    requires
        pos <= input@.len(),
    ensures
        match r {
            Some(x) => pos <= x.1 <= input@.len() && parse_bytes(input@.skip(pos as int)) == Some(
                (x.0@, input@.skip(x.1 as int)),
            ),
            None => parse_bytes(input@.skip(pos as int)) is None,
        },
{
    let (n, p) = match read_u32(input, pos) {
        Some(x) => x,
        None => {
            return None;
        },
    };
    let n_us = n as usize;
    if input.len() - p < n_us {
        proof {
            assert(input@.skip(p as int).len() < n as int);
        }
        return None;
    }
    let total = input.len();
    let mut v: Vec<u8> = Vec::new();
    let mut i: usize = 0;
    while i < n_us
        invariant
            i <= n_us,
            p + n_us <= total,
            total == input@.len(),
            v@ == input@.subrange(p as int, p as int + i as int),
        decreases n_us - i,
    {
        v.push(input[p + i]);
        proof {
            assert(v@ =~= input@.subrange(p as int, p as int + i as int + 1));
        }
        i += 1;
    }
    proof {
        let rem = input@.skip(p as int);
        assert(rem.len() >= n as int);
        assert(rem.take(n as int) =~= input@.subrange(p as int, p as int + n as int));
        assert(rem.skip(n as int) =~= input@.skip(p as int + n as int));
    }
    Some((v, p + n_us))
}

fn read_string(input: &Vec<u8>, pos: usize) -> (r: Option<(String, usize)>)
    requires
        pos <= input@.len(),
    ensures
        match r {
            Some(x) => pos <= x.1 <= input@.len() && parse_string(input@.skip(pos as int))
                == Some((x.0@, input@.skip(x.1 as int))),
            None => parse_string(input@.skip(pos as int)) is None,
        },
{
    let (bytes, p) = match read_bytes(input, pos) {
        Some(x) => x,
        None => {
            return None;
        },
    };
    match bytes_to_string(&bytes) {
        Some(s) => Some((s, p)),
        None => None,
    }
}

fn read_opt_string(input: &Vec<u8>, pos: usize) -> (r: Option<(Option<String>, usize)>)
    requires
        pos <= input@.len(),
    ensures
        match r {
            Some(x) => pos <= x.1 <= input@.len() && parse_opt_string(input@.skip(pos as int))
                == Some((opt_view(x.0), input@.skip(x.1 as int))),
            None => parse_opt_string(input@.skip(pos as int)) is None,
        },
{
    if pos >= input.len() {
        return None;
    }
    let tag = input[pos];
    proof {
        assert(input@.skip(pos as int)[0] == tag);
        assert(input@.skip(pos as int).skip(1) =~= input@.skip(pos as int + 1));
    }
    if tag == 0 {
        Some((None, pos + 1))
    } else if tag == 1 {
        match read_string(input, pos + 1) {
            Some((s, np)) => Some((Some(s), np)),
            None => None,
        }
    } else {
        None
    }
}

fn read_identity(input: &Vec<u8>, pos: usize) -> (r: Option<(Identity, usize)>)
    requires
        pos <= input@.len(),
    ensures
        match r {
            Some(x) => pos <= x.1 <= input@.len() && parse_identity(input@.skip(pos as int))
                == Some((x.0@, input@.skip(x.1 as int))),
            None => parse_identity(input@.skip(pos as int)) is None,
        },
{
    let (an, p1) = match read_opt_string(input, pos) {
        Some(x) => x,
        None => {
            return None;
        },
    };
    let (afn, p2) = match read_opt_string(input, p1) {
        Some(x) => x,
        None => {
            return None;
        },
    };
    let (cn, p3) = match read_string(input, p2) {
        Some(x) => x,
        None => {
            return None;
        },
    };
    let id = Identity { archetype_name: an, archetype_field_name: afn, component_name: cn };
    Some((id, p3))
}

fn read_values(input: &Vec<u8>, pos: usize, n: u32) -> (r: Option<(Vec<Vec<u8>>, usize)>)
    requires
        pos <= input@.len(),
    ensures
        match r {
            Some(x) => pos <= x.1 <= input@.len() && parse_values(input@.skip(pos as int), n as nat)
                == Some((x.0.deep_view(), input@.skip(x.1 as int))),
            None => parse_values(input@.skip(pos as int), n as nat) is None,
        },
    decreases n,
{
    if n == 0 {
        let vs: Vec<Vec<u8>> = Vec::new();
        proof {
            assert(vs.deep_view() =~= Seq::<Seq<u8>>::empty());
        }
        return Some((vs, pos));
    }
    let (v, p1) = match read_bytes(input, pos) {
        Some(x) => x,
        None => {
            return None;
        },
    };
    let (mut vs, p2) = match read_values(input, p1, n - 1) {
        Some(x) => x,
        None => {
            return None;
        },
    };
    let ghost tail = vs.deep_view();
    let ghost vold = vs@;
    let ghost vg = v;
    let ghost vv = v@;
    vs.insert(0, v);
    proof {
        vold.insert_ensures(0, vg);
        assert(vg.deep_view() =~= vv);
        assert forall|k: int| 0 <= k < vs@.len() implies vs@[k].deep_view() == (seq![vv]
            + tail)[k] by {
            if k > 0 {
                assert(vs@[(k - 1) + 1] == vold[k - 1]);
            }
        }
        assert(vs.deep_view() =~= seq![vv] + tail);
    }
    Some((vs, p2))
}

fn read_column(input: &Vec<u8>, pos: usize) -> (r: Option<(TaggedBatch, usize)>)
    requires
        pos <= input@.len(),
    ensures
        match r {
            Some(x) => pos <= x.1 <= input@.len() && parse_column(input@.skip(pos as int))
                == Some((x.0@, input@.skip(x.1 as int))),
            None => parse_column(input@.skip(pos as int)) is None,
        },
{
    let (id, p1) = match read_identity(input, pos) {
        Some(x) => x,
        None => {
            return None;
        },
    };
    let (n, p2) = match read_u32(input, p1) {
        Some(x) => x,
        None => {
            return None;
        },
    };
    let (vals, p3) = match read_values(input, p2, n) {
        Some(x) => x,
        None => {
            return None;
        },
    };
    let tb = TaggedBatch { identity: id, batch: Batch { values: vals } };
    proof {
        assert(tb@ =~= (ColumnView { identity: id@, values: vals.deep_view() }));
    }
    Some((tb, p3))
}

fn read_columns(input: &Vec<u8>, pos: usize, n: u32) -> (r: Option<(Vec<TaggedBatch>, usize)>)
    requires
        pos <= input@.len(),
    ensures
        match r {
            Some(x) => pos <= x.1 <= input@.len() && parse_columns(
                input@.skip(pos as int),
                n as nat,
            ) == Some((column_views(x.0@), input@.skip(x.1 as int))),
            None => parse_columns(input@.skip(pos as int), n as nat) is None,
        },
    decreases n,
{
    if n == 0 {
        let vs: Vec<TaggedBatch> = Vec::new();
        proof {
            assert(column_views(vs@) =~= Seq::<ColumnView>::empty());
        }
        return Some((vs, pos));
    }
    let (c, p1) = match read_column(input, pos) {
        Some(x) => x,
        None => {
            return None;
        },
    };
    let (mut cs, p2) = match read_columns(input, p1, n - 1) {
        Some(x) => x,
        None => {
            return None;
        },
    };
    let ghost tail = column_views(cs@);
    let ghost cold = cs@;
    let ghost cg = c;
    let ghost cview = c@;
    cs.insert(0, c);
    proof {
        cold.insert_ensures(0, cg);
        assert forall|k: int| 0 <= k < cs@.len() implies column_views(cs@)[k] == (seq![cview]
            + tail)[k] by {
            if k > 0 {
                assert(cs@[(k - 1) + 1] == cold[k - 1]);
            }
        }
        assert(column_views(cs@) =~= seq![cview] + tail);
    }
    Some((cs, p2))
}

fn read_chunk(input: &Vec<u8>, pos: usize) -> (r: Option<(Chunk, usize)>)
    requires
        pos <= input@.len(),
    ensures
        match r {
            Some(x) => pos <= x.1 <= input@.len() && parse_chunk(input@.skip(pos as int)) == Some(
                (x.0@, input@.skip(x.1 as int)),
            ),
            None => parse_chunk(input@.skip(pos as int)) is None,
        },
{
    let (n, p1) = match read_u32(input, pos) {
        Some(x) => x,
        None => {
            return None;
        },
    };
    let (cols, p2) = match read_columns(input, p1, n) {
        Some(x) => x,
        None => {
            return None;
        },
    };
    Some((Chunk { columns: cols }, p2))
}

fn read_chunks(input: &Vec<u8>, pos: usize, n: u32) -> (r: Option<(Vec<Chunk>, usize)>)
    requires
        pos <= input@.len(),
    ensures
        match r {
            Some(x) => pos <= x.1 <= input@.len() && parse_chunks(input@.skip(pos as int), n as nat)
                == Some((chunk_views(x.0@), input@.skip(x.1 as int))),
            None => parse_chunks(input@.skip(pos as int), n as nat) is None,
        },
    decreases n,
{
    if n == 0 {
        let vs: Vec<Chunk> = Vec::new();
        proof {
            assert(chunk_views(vs@) =~= Seq::<Seq<ColumnView>>::empty());
        }
        return Some((vs, pos));
    }
    let (c, p1) = match read_chunk(input, pos) {
        Some(x) => x,
        None => {
            return None;
        },
    };
    let (mut cs, p2) = match read_chunks(input, p1, n - 1) {
        Some(x) => x,
        None => {
            return None;
        },
    };
    let ghost tail = chunk_views(cs@);
    let ghost cold = cs@;
    let ghost cg = c;
    let ghost cview = c@;
    cs.insert(0, c);
    proof {
        cold.insert_ensures(0, cg);
        assert forall|k: int| 0 <= k < cs@.len() implies chunk_views(cs@)[k] == (seq![cview]
            + tail)[k] by {
            if k > 0 {
                assert(cs@[(k - 1) + 1] == cold[k - 1]);
            }
        }
        assert(chunk_views(cs@) =~= seq![cview] + tail);
    }
    Some((cs, p2))
}

impl Store {
    /// Parses a persisted representation into a store.
    ///
    /// Fails with [`LoadError`] exactly when the bytes do not parse as a
    /// whole store (malformed or truncated input, or trailing bytes); a
    /// partial store is never returned.
    pub fn open(source: &Vec<u8>) -> (r: Result<Store, LoadError>)
        ensures
            match r {
                Ok(s) => parse_store(source@) == Some(s@),
                Err(_) => parse_store(source@) is None,
            },
    {
        proof {
            assert(source@.skip(0) =~= source@);
        }
        let (n, p1) = match read_u32(source, 0) {
            Some(x) => x,
            None => {
                return Err(LoadError);
            },
        };
        let (chunks, p2) = match read_chunks(source, p1, n) {
            Some(x) => x,
            None => {
                return Err(LoadError);
            },
        };
        if p2 != source.len() {
            return Err(LoadError);
        }
        proof {
            assert(source@.skip(p2 as int).len() == 0);
        }
        Ok(Store { chunks })
    }
}


/// UTF-8 needs at most four bytes per character.
proof fn lemma_encode_utf8_len(s: Seq<char>)
    ensures
        encode_utf8(s).len() <= 4 * s.len(),
    decreases s.len(),
{
    if s.len() > 0 {
        vstd::utf8::char_is_scalar(s[0]);
        assert(vstd::utf8::encode_scalar(s[0] as u32).len() <= 4);
        lemma_encode_utf8_len(s.skip(1));
    }
}

/// A fresh session's persisted form parses back to exactly its
/// convention-defined metadata chunks and nothing else: saving a new session
/// and opening the result yields a store of exactly
/// [`crate::store::LEADING_METADATA_CHUNKS`] chunks.
pub proof fn lemma_session_header_round_trip(app_id: Seq<char>)
    requires
        string_encodable(app_id),
    ensures
        store_encodable(session_header(app_id)),
        parse_store(ser_store(session_header(app_id))) == Some(session_header(app_id)),
{
    let h = session_header(app_id);
    reveal_strlit("store.properties");
    reveal_strlit("application_id");
    reveal_strlit("store.properties.ApplicationId");
    reveal_strlit("store_version");
    reveal_strlit("store.properties.StoreVersion");
    lemma_encode_utf8_len("store.properties"@);
    lemma_encode_utf8_len("application_id"@);
    lemma_encode_utf8_len("store.properties.ApplicationId"@);
    lemma_encode_utf8_len("store_version"@);
    lemma_encode_utf8_len("store.properties.StoreVersion"@);
    assert(column_encodable(h[0][0]));
    assert(column_encodable(h[1][0]));
    assert forall|i: int| 0 <= i < h.len() implies chunk_encodable(#[trigger] h[i]) by {
        assert forall|j: int| 0 <= j < h[i].len() implies column_encodable(
            #[trigger] h[i][j],
        ) by {
            assert(h[i][j] == h[i][0]);
        }
    }
    lemma_store_round_trip(h);
}

} // verus!
