//! What the generated codec does when it is run: the statements that are
//! written out, read as the Rust that they are, store every field of a row, and
//! load it again.

use crate::bytes::{from_le, le32, le32_round_trip, le64, le64_round_trip, splice, zeros};
use crate::codegen::emit::{
    banner_text, camel_case, crc_at, crc_const_text, decode_field_text, decode_fields_text,
    decode_head_text, encode_field_text, encode_fields_text, encode_head_text, encode_tail_text,
    field_text, fields_text, hash_const_text, hash_of, names_text, offset_text, offsets_text,
    prefix, row_bytes, row_name, rust_text, size_const_text, table_const_text, width_sum,
    width_sum_grows, CRC_CODE,
};
use crate::codegen::laws::{in_name_order, sorting_sorts};
use crate::codegen::queries::{
    engine_shaped, operations_text, parameters_text, query_fn, query_fns, sorted, space_hash,
    surface_consts, surface_head, surface_text, QueryShape, QueryView,
};
use crate::codegen::schema::{ColType, ColumnView, SchemaView};
use crate::codegen::text::{
    decimal, hex, lower_case, lowered_all, name_char, raised_all, upper_case,
};
use crate::crc32::crc;
use vstd::prelude::*;

verus! {

// ---- Texts ----

/// The piece stands somewhere in the text.
pub open spec fn holds(text: Seq<char>, piece: Seq<char>) -> bool {
    exists|at: int| #[trigger] stands(text, piece, at)
}

pub open spec fn stands(text: Seq<char>, piece: Seq<char>, at: int) -> bool {
    0 <= at && at + piece.len() <= text.len() && text.subrange(at, at + piece.len()) == piece
}

pub(crate) proof fn in_front(a: Seq<char>, b: Seq<char>, piece: Seq<char>)
    requires
        holds(a, piece),
    ensures
        holds(a + b, piece),
{
    let at = choose|at: int| #[trigger] stands(a, piece, at);
    assert((a + b).subrange(at, at + piece.len()) =~= a.subrange(at, at + piece.len()));
    assert(stands(a + b, piece, at));
}

pub(crate) proof fn behind(a: Seq<char>, b: Seq<char>, piece: Seq<char>)
    requires
        holds(b, piece),
    ensures
        holds(a + b, piece),
{
    let at = choose|at: int| #[trigger] stands(b, piece, at);
    assert((a + b).subrange(a.len() + at, a.len() + at + piece.len()) =~= b.subrange(
        at,
        at + piece.len(),
    ));
    assert(stands(a + b, piece, a.len() + at));
}

pub(crate) proof fn itself(piece: Seq<char>)
    ensures
        holds(piece, piece),
{
    assert(piece.subrange(0, piece.len() as int) =~= piece);
    assert(stands(piece, piece, 0));
}

/// The pieces of the generated file, in their order.
spec fn pieces(s: SchemaView, source: Seq<char>) -> Seq<Seq<char>> {
    let n = s.columns.len() as int;
    seq![
        banner_text(source),
        table_const_text(s),
        hash_const_text(s),
        size_const_text(s),
        crc_const_text(s),
        offsets_text(s, n),
        "\n#[derive(Debug, Clone, Copy, PartialEq, Eq)]\npub struct "@ + row_name(s) + " {\n"@
            + fields_text(s, n) + "}\n\n"@,
        CRC_CODE@,
        encode_head_text(s) + encode_fields_text(s, n) + encode_tail_text(s),
        decode_head_text(s) + decode_fields_text(s, n) + "    Some("@ + row_name(s) + " { "@
            + names_text(s.columns, n) + " })\n}\n"@,
    ]
}

spec fn joined(list: Seq<Seq<char>>, n: int) -> Seq<char>
    decreases n,
{
    if n <= 0 {
        Seq::empty()
    } else {
        joined(list, n - 1) + list[n - 1]
    }
}

#[verifier::spinoff_prover]
#[verifier::rlimit(60)]
proof fn text_is_joined(s: SchemaView, source: Seq<char>)
    ensures
        rust_text(s, source) == joined(pieces(s, source), 10),
{
    let n = s.columns.len() as int;
    let p = pieces(s, source);
    reveal_with_fuel(joined, 11);
    let a = banner_text(source) + table_const_text(s) + hash_const_text(s) + size_const_text(s)
        + crc_const_text(s) + offsets_text(s, n);
    assert(joined(p, 6) =~= a);
    let d = "\n#[derive(Debug, Clone, Copy, PartialEq, Eq)]\npub struct "@;
    let b = a + d + row_name(s) + " {\n"@ + fields_text(s, n) + "}\n\n"@;
    assert(joined(p, 7) =~= b) by {
        assert(joined(p, 7) == joined(p, 6) + p[6]);
    }
    let c = b + CRC_CODE@;
    assert(joined(p, 8) == c);
    let e = c + encode_head_text(s) + encode_fields_text(s, n) + encode_tail_text(s);
    assert(joined(p, 9) =~= e) by {
        assert(joined(p, 9) == joined(p, 8) + p[8]);
    }
    let f = e + decode_head_text(s) + decode_fields_text(s, n) + "    Some("@ + row_name(s)
        + " { "@ + names_text(s.columns, n) + " })\n}\n"@;
    assert(joined(p, 10) =~= f) by {
        assert(joined(p, 10) == joined(p, 9) + p[9]);
    }
}

proof fn joined_holds(list: Seq<Seq<char>>, n: int, i: int, piece: Seq<char>)
    requires
        0 <= i < n <= list.len(),
        holds(list[i], piece),
    ensures
        holds(joined(list, n), piece),
    decreases n,
{
    if i == n - 1 {
        behind(joined(list, n - 1), list[n - 1], piece);
    } else {
        joined_holds(list, n - 1, i, piece);
        in_front(joined(list, n - 1), list[n - 1], piece);
    }
}

proof fn text_holds(s: SchemaView, source: Seq<char>, i: int, piece: Seq<char>)
    requires
        0 <= i < 10,
        holds(pieces(s, source)[i], piece),
    ensures
        holds(rust_text(s, source), piece),
{
    text_is_joined(s, source);
    joined_holds(pieces(s, source), 10, i, piece);
}

// ---- Statements ----

/// A value of a field.
pub enum Field {
    Int(u64),
    Bytes(Seq<u8>),
}

/// The bytes of a row that belong to a field: an integer, or as many bytes as
/// there are.
pub struct Place {
    pub name: Seq<char>,
    pub int: bool,
    pub from: int,
    pub to: int,
}

/// The range `from..to`, as it is written.
pub open spec fn range_text(p: Place) -> Seq<char> {
    decimal(p.from as nat) + ".."@ + decimal(p.to as nat)
}

/// The statement that copies a field into its bytes of `out`.
pub open spec fn store_text(p: Place) -> Seq<char> {
    if p.int {
        "    out["@ + range_text(p) + "].copy_from_slice(&row."@ + p.name + ".to_le_bytes());\n"@
    } else {
        "    out["@ + range_text(p) + "].copy_from_slice(&row."@ + p.name + ");\n"@
    }
}

/// What that statement does. It does not compile, or panics, where the bytes
/// are not as many as the field has.
pub open spec fn stored(p: Place, row: Map<Seq<char>, Field>, out: Seq<u8>) -> Option<Seq<u8>> {
    if !row.contains_key(p.name) || !(0 <= p.from <= p.to <= out.len()) {
        None
    } else {
        match row[p.name] {
            Field::Int(v) => if p.int && p.to == p.from + 8 {
                Some(splice(out, p.from, le64(v)))
            } else {
                None
            },
            Field::Bytes(b) => if !p.int && p.to == p.from + b.len() {
                Some(splice(out, p.from, b))
            } else {
                None
            },
        }
    }
}

/// The statement that takes a field from its bytes of `bytes`.
pub open spec fn load_text(p: Place) -> Seq<char> {
    if p.int {
        "    let "@ + p.name + " = u64::from_le_bytes(bytes["@ + range_text(p)
            + "].try_into().ok()?);\n"@
    } else {
        "    let "@ + p.name + ": [u8; "@ + decimal((p.to - p.from) as nat) + "] = bytes["@
            + range_text(p) + "].try_into().ok()?;\n"@
    }
}

/// What that statement yields.
pub open spec fn loaded(p: Place, bytes: Seq<u8>) -> Option<Field> {
    if !(0 <= p.from <= p.to <= bytes.len()) {
        None
    } else if !p.int {
        Some(Field::Bytes(bytes.subrange(p.from, p.to)))
    } else if p.to == p.from + 8 {
        Some(Field::Int(from_le(bytes.subrange(p.from, p.to)) as u64))
    } else {
        None
    }
}

/// The first `n` statements of a kind, one behind the other.
pub open spec fn stores_text(places: Seq<Place>, n: int) -> Seq<char>
    decreases n,
{
    if n <= 0 {
        Seq::empty()
    } else {
        stores_text(places, n - 1) + store_text(places[n - 1])
    }
}

pub open spec fn loads_text(places: Seq<Place>, n: int) -> Seq<char>
    decreases n,
{
    if n <= 0 {
        Seq::empty()
    } else {
        loads_text(places, n - 1) + load_text(places[n - 1])
    }
}

/// What the first `n` stores leave in `out`.
pub open spec fn stored_all(
    places: Seq<Place>,
    n: int,
    row: Map<Seq<char>, Field>,
    out: Seq<u8>,
) -> Option<Seq<u8>>
    decreases n,
{
    if n <= 0 {
        Some(out)
    } else {
        match stored_all(places, n - 1, row, out) {
            None => None,
            Some(o) => stored(places[n - 1], row, o),
        }
    }
}

/// The checksum of the fields behind them, and zeros from there on.
pub open spec fn sealed(out: Seq<u8>, at: int) -> Seq<u8> {
    out.take(at) + le32(crc(out.take(at))) + zeros((out.len() - at - 4) as nat)
}

/// Long enough, with the checksum of what is in front of it, and zeros behind.
pub open spec fn unspoilt(bytes: Seq<u8>, at: int, size: int) -> bool {
    &&& bytes.len() >= size
    &&& bytes.subrange(at, at + 4) == le32(crc(bytes.take(at)))
    &&& bytes.subrange(at + 4, size) == zeros((size - at - 4) as nat)
}

/// The generated encoder, with the statements that store these places.
pub open spec fn encoder_text(s: SchemaView, places: Seq<Place>) -> Seq<char> {
    "pub fn encode_"@ + s.table + "_row(row: &"@ + row_name(s) + ", out: &mut [u8; "@ + prefix(s)
        + "_ROW_SIZE]) {\n"@ + stores_text(places, places.len() as int) + (
    "    let crc = gen_crc32(&out[0.."@ + prefix(s) + "_CRC_OFFSET]);\n    out["@ + prefix(s)
        + "_CRC_OFFSET.."@ + prefix(s)
        + "_CRC_OFFSET + 4].copy_from_slice(&crc.to_le_bytes());\n    out["@ + prefix(s)
        + "_CRC_OFFSET + 4..].fill(0);\n    debug_assert_eq!(decode_"@ + s.table
        + "_row(out), Some(*row));\n}\n\n"@)
}

/// The generated decoder, with the statements that load these places.
pub open spec fn decoder_text(s: SchemaView, places: Seq<Place>) -> Seq<char> {
    "pub fn decode_"@ + s.table + "_row(bytes: &[u8]) -> Option<"@ + row_name(s)
        + "> {\n    if bytes.len() < "@ + prefix(s)
        + "_ROW_SIZE {\n        return None;\n    }\n    let stored = u32::from_le_bytes(bytes["@
        + prefix(s) + "_CRC_OFFSET.."@ + prefix(s)
        + "_CRC_OFFSET + 4].try_into().ok()?);\n    if gen_crc32(&bytes[0.."@ + prefix(s)
        + "_CRC_OFFSET]) != stored {\n        return None;\n    }\n    if bytes["@ + prefix(s)
        + "_CRC_OFFSET + 4.."@ + prefix(s)
        + "_ROW_SIZE].iter().any(|&b| b != 0) {\n        return None;\n    }\n"@ + loads_text(
        places,
        places.len() as int,
    ) + "    Some("@ + row_name(s) + " { "@ + comma_list(places, places.len() as int)
        + " })\n}\n"@
}

/// The places' names, separated by commas.
pub open spec fn comma_list(places: Seq<Place>, n: int) -> Seq<char>
    decreases n,
{
    if n <= 0 {
        Seq::empty()
    } else if n == 1 {
        places[0].name
    } else {
        comma_list(places, n - 1) + ", "@ + places[n - 1].name
    }
}

// ---- The codec of a schema ----

/// The places of a schema's columns: one behind the other, from the front.
pub open spec fn places_of(s: SchemaView) -> Seq<Place> {
    Seq::new(
        s.columns.len(),
        |i: int|
            Place {
                name: s.columns[i].name,
                int: s.columns[i].ty is BigInt,
                from: width_sum(s.columns, i),
                to: width_sum(s.columns, i + 1),
            },
    )
}

/// A row of the schema: every column has a value of its type.
pub open spec fn is_row_of(row: Map<Seq<char>, Field>, s: SchemaView) -> bool {
    forall|i: int|
        0 <= i < s.columns.len() ==> has_field(row, #[trigger] s.columns[i])
}

pub open spec fn has_field(row: Map<Seq<char>, Field>, c: ColumnView) -> bool {
    &&& row.contains_key(c.name)
    &&& match c.ty {
        ColType::BigInt => row[c.name] is Int,
        ColType::FixedBytes(n) => row[c.name] matches Field::Bytes(b) && b.len() == n,
    }
}

proof fn statements_are_written(s: SchemaView, n: int)
    requires
        0 <= n <= s.columns.len(),
    ensures
        encode_fields_text(s, n) == stores_text(places_of(s), n),
        decode_fields_text(s, n) == loads_text(places_of(s), n),
        names_text(s.columns, n) == comma_list(places_of(s), n),
    decreases n,
{
    if n > 0 {
        statements_are_written(s, n - 1);
        let i = n - 1;
        let p = places_of(s)[i];
        assert(encode_field_text(s, i) =~= store_text(p));
        assert(decode_field_text(s, i) =~= load_text(p));
    }
}

/// What a field's bytes are.
spec fn field_bytes(f: Field) -> Seq<u8> {
    match f {
        Field::Int(v) => le64(v),
        Field::Bytes(b) => b,
    }
}

#[verifier::spinoff_prover]
proof fn stores_land(s: SchemaView, n: int, row: Map<Seq<char>, Field>, out: Seq<u8>)
    requires
        0 <= n <= s.columns.len(),
        is_row_of(row, s),
        crc_at(s) <= out.len(),
    ensures
        stored_all(places_of(s), n, row, out) matches Some(o) && {
            &&& o.len() == out.len()
            &&& forall|i: int|
                0 <= i < n ==> o.subrange(
                    width_sum(s.columns, i),
                    width_sum(s.columns, i + 1),
                ) == field_bytes(row[(#[trigger] s.columns[i]).name])
        },
    decreases n,
{
    if n > 0 {
        stores_land(s, n - 1, row, out);
        let k = n - 1;
        let c = s.columns[k];
        let p = places_of(s)[k];
        let o = stored_all(places_of(s), k, row, out)->0;
        assert(has_field(row, c));
        width_sum_grows(s.columns, k, n);
        width_sum_grows(s.columns, n, s.columns.len() as int);
        let data = field_bytes(row[c.name]);
        if row[c.name] is Int {
            le64_round_trip(row[c.name]->Int_0);
        }
        assert(data.len() == p.to - p.from);
        let next = splice(o, p.from, data);
        assert(stored_all(places_of(s), n, row, out) == Some(next));
        assert forall|i: int| 0 <= i < n implies next.subrange(
            width_sum(s.columns, i),
            width_sum(s.columns, i + 1),
        ) == field_bytes(row[(#[trigger] s.columns[i]).name]) by {
            if i < k {
                width_sum_grows(s.columns, 0, i);
                width_sum_grows(s.columns, i, i + 1);
                width_sum_grows(s.columns, i + 1, k);
                assert(next.subrange(width_sum(s.columns, i), width_sum(s.columns, i + 1))
                    =~= o.subrange(width_sum(s.columns, i), width_sum(s.columns, i + 1)));
            } else {
                assert(next.subrange(p.from, p.to) =~= data);
            }
        }
    }
}

/// The generated codec round-trips. The text holds an encoder and a decoder
/// whose statements store and load the same bytes in the same way; run on any
/// row of the schema, the encoder leaves bytes that the decoder accepts, and
/// takes every field of the row from.
#[verifier::spinoff_prover]
pub proof fn the_generated_codec_round_trips(
    s: SchemaView,
    source: Seq<char>,
    row: Map<Seq<char>, Field>,
    out: Seq<u8>,
)
    requires
        is_row_of(row, s),
        out.len() == row_bytes(s),
    ensures
        holds(rust_text(s, source), encoder_text(s, places_of(s))),
        holds(rust_text(s, source), decoder_text(s, places_of(s))),
        stored_all(places_of(s), places_of(s).len() as int, row, out) matches Some(o) && {
            let bytes = sealed(o, crc_at(s));
            &&& bytes.len() == row_bytes(s)
            &&& unspoilt(bytes, crc_at(s), row_bytes(s))
            &&& forall|i: int|
                0 <= i < s.columns.len() ==> loaded(places_of(s)[i], bytes) == Some(
                    row[(#[trigger] s.columns[i]).name],
                )
        },
{
    let n = s.columns.len() as int;
    let places = places_of(s);
    statements_are_written(s, n);
    assert(encoder_text(s, places) =~= pieces(s, source)[8]);
    itself(encoder_text(s, places));
    text_holds(s, source, 8, encoder_text(s, places));
    assert(decoder_text(s, places) =~= pieces(s, source)[9]);
    itself(decoder_text(s, places));
    text_holds(s, source, 9, decoder_text(s, places));

    let c = crc_at(s);
    width_sum_grows(s.columns, 0, n);
    stores_land(s, n, row, out);
    let o = stored_all(places, n, row, out)->0;
    let bytes = sealed(o, c);
    le32_round_trip(crc(o.take(c)));
    assert(bytes.take(c) =~= o.take(c));
    assert(bytes.subrange(c, c + 4) =~= le32(crc(o.take(c))));
    assert(bytes.subrange(c + 4, row_bytes(s)) =~= zeros((row_bytes(s) - c - 4) as nat));
    assert forall|i: int| 0 <= i < n implies loaded(places[i], bytes) == Some(
        row[(#[trigger] s.columns[i]).name],
    ) by {
        let f = row[s.columns[i].name];
        assert(has_field(row, s.columns[i]));
        width_sum_grows(s.columns, 0, i);
        width_sum_grows(s.columns, i, i + 1);
        width_sum_grows(s.columns, i + 1, n);
        let p = places[i];
        assert(bytes.subrange(p.from, p.to) =~= o.subrange(p.from, p.to));
        if f is Int {
            le64_round_trip(f->Int_0);
        }
    }
}

// ---- What stands around it ----

/// A number that is declared under a name.
pub open spec fn constant_text(name: Seq<char>, value: int) -> Seq<char> {
    "pub const "@ + name + ": usize = "@ + decimal(value as nat) + ";\n"@
}

proof fn offset_is_held(s: SchemaView, n: int, i: int)
    requires
        0 <= i < n <= s.columns.len(),
    ensures
        holds(offsets_text(s, n), offset_text(s, i)),
    decreases n,
{
    if i == n - 1 {
        itself(offset_text(s, i));
        behind(offsets_text(s, n - 1), offset_text(s, i), offset_text(s, i));
    } else {
        offset_is_held(s, n - 1, i);
        in_front(offsets_text(s, n - 1), offset_text(s, n - 1), offset_text(s, i));
    }
}

proof fn field_is_held(s: SchemaView, n: int, i: int)
    requires
        0 <= i < n <= s.columns.len(),
    ensures
        holds(fields_text(s, n), field_text(s.columns[i])),
    decreases n,
{
    let text = field_text(s.columns[i]);
    if i == n - 1 {
        itself(text);
        behind(fields_text(s, n - 1), text, text);
    } else {
        field_is_held(s, n - 1, i);
        in_front(fields_text(s, n - 1), field_text(s.columns[n - 1]), text);
    }
}

/// The names that the generated codec goes by mean what the layout says: the
/// checksum comes behind the fields, and the row ends at a multiple of eight;
/// every column starts where the ones in front of it end, and is a field of its
/// type; and the table's name and the schema's hash are there.
#[verifier::spinoff_prover]
#[verifier::rlimit(40)]
pub proof fn the_generated_names_mean_the_layout(s: SchemaView, source: Seq<char>, i: int)
    requires
        0 <= i < s.columns.len(),
    ensures
        ({
            let text = rust_text(s, source);
            let up = raised_all(s.table);
            let c = s.columns[i];
            &&& holds(
                text,
                constant_text(
                    up + "_CRC_OFFSET"@,
                    width_sum(s.columns, s.columns.len() as int),
                ),
            )
            &&& holds(text, constant_text(up + "_ROW_SIZE"@, row_bytes(s)))
            &&& holds(
                text,
                constant_text(
                    up + "_COL_"@ + raised_all(c.name) + "_OFFSET"@,
                    width_sum(s.columns, i),
                ),
            )
            &&& holds(
                text,
                "    pub "@ + c.name + ": "@ + (match c.ty {
                    ColType::BigInt => "u64"@,
                    ColType::FixedBytes(n) => "[u8; "@ + decimal(n as nat) + "]"@,
                }) + ",\n"@,
            )
            &&& holds(text, "pub struct "@ + camel_case(s.table, true) + "Row {\n"@)
            &&& holds(text, "pub const "@ + up + "_TABLE: &str = \""@ + s.table + "\";\n"@)
            &&& holds(
                text,
                "pub const "@ + up + "_SCHEMA_HASH: u64 = 0x"@ + hex(hash_of(s) as nat, 16)
                    + ";\n"@,
            )
        }),
{
    let n = s.columns.len() as int;
    let up = raised_all(s.table);
    let c = s.columns[i];
    reveal_strlit("_CRC_OFFSET: usize = ");
    reveal_strlit("_CRC_OFFSET");
    reveal_strlit(": usize = ");
    reveal_strlit("_ROW_SIZE: usize = ");
    reveal_strlit("_ROW_SIZE");
    reveal_strlit("_OFFSET: usize = ");
    reveal_strlit("_OFFSET");
    reveal_strlit("Row {\n");
    reveal_strlit("Row");
    reveal_strlit(" {\n");
    assert("_CRC_OFFSET: usize = "@ =~= "_CRC_OFFSET"@ + ": usize = "@);
    assert("_ROW_SIZE: usize = "@ =~= "_ROW_SIZE"@ + ": usize = "@);
    assert("_OFFSET: usize = "@ =~= "_OFFSET"@ + ": usize = "@);
    assert("Row {\n"@ =~= "Row"@ + " {\n"@);

    let a = constant_text(up + "_CRC_OFFSET"@, crc_at(s));
    assert(a =~= crc_const_text(s));
    itself(a);
    text_holds(s, source, 4, a);

    let b = constant_text(up + "_ROW_SIZE"@, row_bytes(s));
    assert(b =~= size_const_text(s));
    itself(b);
    text_holds(s, source, 3, b);

    let d = constant_text(up + "_COL_"@ + raised_all(c.name) + "_OFFSET"@, width_sum(s.columns, i));
    assert(d =~= offset_text(s, i));
    offset_is_held(s, n, i);
    text_holds(s, source, 5, d);

    let e = field_text(c);
    let head = "\n#[derive(Debug, Clone, Copy, PartialEq, Eq)]\npub struct "@ + row_name(s)
        + " {\n"@;
    field_is_held(s, n, i);
    behind(head, fields_text(s, n), e);
    in_front(head + fields_text(s, n), "}\n\n"@, e);
    text_holds(s, source, 6, e);

    let f = "pub struct "@ + camel_case(s.table, true) + "Row {\n"@;
    let g = "\n#[derive(Debug, Clone, Copy, PartialEq, Eq)]\n"@;
    reveal_strlit("\n#[derive(Debug, Clone, Copy, PartialEq, Eq)]\npub struct ");
    reveal_strlit("\n#[derive(Debug, Clone, Copy, PartialEq, Eq)]\n");
    reveal_strlit("pub struct ");
    assert("\n#[derive(Debug, Clone, Copy, PartialEq, Eq)]\npub struct "@ =~= g
        + "pub struct "@);
    assert(head =~= g + f);
    itself(f);
    behind(g, f, f);
    in_front(head, fields_text(s, n), f);
    in_front(head + fields_text(s, n), "}\n\n"@, f);
    text_holds(s, source, 6, f);

    itself(table_const_text(s));
    text_holds(s, source, 1, table_const_text(s));
    itself(hash_const_text(s));
    text_holds(s, source, 2, hash_const_text(s));
}

/// The checksum that the generated codec computes is the one that its files are
/// read with: CRC-32 with the reflected polynomial, its table built bit by bit,
/// all ones to begin with, inverted at the end.
pub proof fn the_generated_checksum_is_spelled_out(s: SchemaView, source: Seq<char>)
    ensures
        holds(
            rust_text(s, source),
            "const GEN_CRC_POLY: u32 = 0xEDB8_8320;\nconst fn gen_crc_table() -> [u32; 256] {\n    let mut table = [0u32; 256];\n    let mut i = 0;\n    while i < 256 {\n        let mut crc = i as u32;\n        let mut bit = 0;\n        while bit < 8 {\n            crc = if crc & 1 != 0 { (crc >> 1) ^ GEN_CRC_POLY } else { crc >> 1 };\n            bit += 1;\n        }\n        table[i] = crc;\n        i += 1;\n    }\n    table\n}\nstatic GEN_CRC_TABLE: [u32; 256] = gen_crc_table();\nfn gen_crc32(data: &[u8]) -> u32 {\n    let mut crc = !0u32;\n    for &byte in data {\n        crc = (crc >> 8) ^ GEN_CRC_TABLE[((crc ^ byte as u32) & 0xFF) as usize];\n    }\n    !crc\n}\n\n"@,
        ),
{
    itself(CRC_CODE@);
    text_holds(s, source, 7, CRC_CODE@);
}

// ---- Names ----

/// A name's letters, without the underscores.
pub open spec fn letters(name: Seq<char>) -> Seq<char>
    decreases name.len(),
{
    if name.len() == 0 {
        Seq::empty()
    } else if name[0] == '_' {
        letters(name.drop_first())
    } else {
        seq![name[0]] + letters(name.drop_first())
    }
}

/// Camel case keeps a name's letters and drops the underscores; a letter that
/// starts the name, or follows an underscore, is a capital, and no other is.
pub proof fn camel_case_keeps_the_letters(name: Seq<char>, upper: bool)
    requires
        forall|i: int| 0 <= i < name.len() ==> name_char(#[trigger] name[i]),
    ensures
        lowered_all(camel_case(name, upper)) == letters(name),
        name.len() > 0 && upper && lower_case(name[0]) ==> upper_case(camel_case(name, upper)[0]),
        name.len() > 0 && !upper && name[0] != '_' ==> camel_case(name, upper)[0] == name[0],
        name.len() > 1 && name[0] == '_' ==> camel_case(name, upper) == camel_case(
            name.drop_first(),
            true,
        ),
        name.len() > 0 && name[0] != '_' ==> camel_case(name, upper).drop_first() == camel_case(
            name.drop_first(),
            false,
        ),
    decreases name.len(),
{
    if name.len() > 0 {
        let rest = name.drop_first();
        assert(name_char(name[0]));
        assert forall|i: int| 0 <= i < rest.len() implies name_char(#[trigger] rest[i]) by {
            assert(rest[i] == name[i + 1]);
        }
        camel_case_keeps_the_letters(rest, name[0] == '_');
        let camel = camel_case(name, upper);
        if name[0] != '_' {
            let tail = camel_case(rest, false);
            assert(camel.drop_first() =~= tail);
            assert(lowered_all(camel) =~= seq![name[0]] + lowered_all(tail));
        }
    } else {
        assert(lowered_all(camel_case(name, upper)) =~= letters(name));
    }
}

// ---- The client surface ----

/// The function that asks for one query: a read by key, or a write of a row.
pub open spec fn function_text(q: QueryView, width: u32) -> Seq<char> {
    match q.shape {
        QueryShape::SelectByPk => "pub fn "@ + q.name
            + "(id: u64) -> crate::engine::Input<'static> {\n    crate::engine::Input::Get { id }\n}\n\n"@,
        QueryShape::InsertRow => "pub fn "@ + q.name + ("(id: u64, value: [u8; "@ + decimal(
            width as nat,
        )
            + "]) -> crate::engine::Input<'static> {\n    crate::engine::Input::Insert { id, value }\n}\n\n"@),
    }
}

/// The queries' names in quotes, separated by commas.
pub open spec fn quoted_names(list: Seq<QueryView>, n: int) -> Seq<char>
    decreases n,
{
    if n <= 0 {
        Seq::empty()
    } else if n == 1 {
        "\""@ + list[0].name + "\""@
    } else {
        quoted_names(list, n - 1) + ", "@ + ("\""@ + list[n - 1].name + "\""@)
    }
}

proof fn names_are_quoted(list: Seq<QueryView>, n: int)
    ensures
        operations_text(list, n) == quoted_names(list, n),
    decreases n,
{
    if n > 1 {
        names_are_quoted(list, n - 1);
    }
}

proof fn query_is_held(s: SchemaView, queries: Seq<QueryView>, n: int, i: int, piece: Seq<char>)
    requires
        0 <= i < n <= queries.len(),
        holds(query_fn(s, queries[i]), piece),
    ensures
        holds(query_fns(s, queries, n), piece),
    decreases n,
{
    if i == n - 1 {
        behind(query_fns(s, queries, n - 1), query_fn(s, queries[i]), piece);
    } else {
        query_is_held(s, queries, n - 1, i, piece);
        in_front(query_fns(s, queries, n - 1), query_fn(s, queries[n - 1]), piece);
    }
}

/// Every query is a function of its name that asks the engine for what was
/// declared, no more and no less: its key, or the row.
#[verifier::spinoff_prover]
#[verifier::rlimit(40)]
pub proof fn every_query_is_a_function(
    s: SchemaView,
    queries: Seq<QueryView>,
    source: Seq<char>,
    i: int,
    width: u32,
)
    requires
        engine_shaped(s),
        s.columns[0].ty == ColType::BigInt,
        s.columns[1].ty == ColType::FixedBytes(width),
        0 <= i < queries.len(),
    ensures
        holds(surface_text(s, queries, source), function_text(queries[i], width)),
{
    let q = queries[i];
    let piece = function_text(q, width);
    let text = query_fn(s, q);
    reveal_strlit("pub fn ");
    itself(piece);
    match q.shape {
        QueryShape::SelectByPk => {
            reveal_strlit("` row by primary key.\n/// Answered by `GetDone`; pure in-memory, no I/O requests.\npub fn ");
            reveal_strlit("` row by primary key.\n/// Answered by `GetDone`; pure in-memory, no I/O requests.\n");
            let a = "` row by primary key.\n/// Answered by `GetDone`; pure in-memory, no I/O requests.\n"@;
            assert("` row by primary key.\n/// Answered by `GetDone`; pure in-memory, no I/O requests.\npub fn "@
                =~= a + "pub fn "@);
            let front = "/// `-- name: "@ + q.name + " :one` — SELECT one `"@ + s.table;
            assert(text =~= (front + a) + piece);
            behind(front + a, piece, piece);
        },
        QueryShape::InsertRow => {
            reveal_strlit("` row. Durably\n/// committed when the engine answers `InsertDone { result: Ok }`.\npub fn ");
            reveal_strlit("` row. Durably\n/// committed when the engine answers `InsertDone { result: Ok }`.\n");
            let a = "` row. Durably\n/// committed when the engine answers `InsertDone { result: Ok }`.\n"@;
            assert("` row. Durably\n/// committed when the engine answers `InsertDone { result: Ok }`.\npub fn "@
                =~= a + "pub fn "@);
            let front = "/// `-- name: "@ + q.name + " :exec` — INSERT one `"@ + s.table;
            reveal_with_fuel(parameters_text, 3);
            reveal_strlit("id");
            reveal_strlit("value");
            reveal_strlit(": ");
            reveal_strlit(", ");
            reveal_strlit("u64");
            reveal_strlit("[u8; ");
            reveal_strlit("]");
            reveal_strlit("(");
            reveal_strlit("(id: u64, value: [u8; ");
            reveal_strlit(") -> crate::engine::Input<'static> {\n    crate::engine::Input::Insert { id, value }\n}\n\n");
            reveal_strlit("]) -> crate::engine::Input<'static> {\n    crate::engine::Input::Insert { id, value }\n}\n\n");
            let tail = ") -> crate::engine::Input<'static> {\n    crate::engine::Input::Insert { id, value }\n}\n\n"@;
            assert("]) -> crate::engine::Input<'static> {\n    crate::engine::Input::Insert { id, value }\n}\n\n"@
                =~= "]"@ + tail);
            let params = parameters_text(s.columns, 2);
            assert("("@ + params =~= "(id: u64, value: [u8; "@ + decimal(width as nat) + "]"@);
            assert(piece =~= "pub fn "@ + q.name + ("("@ + params) + tail);
            assert(text =~= (front + a) + piece);
            behind(front + a, piece, piece);
        },
    }
    query_is_held(s, queries, queries.len() as int, i, piece);
    behind(
        surface_head(source) + surface_consts(queries),
        query_fns(s, queries, queries.len() as int),
        piece,
    );
}

/// The surface lists the names of all its operations, in order, and the hash of
/// the whole.
#[verifier::spinoff_prover]
pub proof fn the_surface_lists_its_operations(
    s: SchemaView,
    queries: Seq<QueryView>,
    source: Seq<char>,
) -> (list: Seq<QueryView>)
    ensures
        in_name_order(list),
        list.to_multiset() == queries.to_multiset(),
        holds(
            surface_text(s, queries, source),
            "pub const OPERATIONS: &[&str] = &["@ + quoted_names(list, list.len() as int)
                + "];\n"@,
        ),
        holds(
            surface_text(s, queries, source),
            "pub const QUERY_SPACE_HASH: u64 = 0x"@ + hex(space_hash(queries) as nat, 16)
                + ";\n"@,
        ),
{
    let n = queries.len() as int;
    let list = sorted(queries, n);
    sorting_sorts(queries, n);
    assert(queries.take(n) =~= queries);
    names_are_quoted(list, list.len() as int);
    let names = operations_text(list, list.len() as int);
    let number = hex(space_hash(queries) as nat, 16);
    reveal_strlit("/// Every operation the compiled client surface exposes.\npub const OPERATIONS: &[&str] = &[");
    reveal_strlit("/// Every operation the compiled client surface exposes.\n");
    reveal_strlit("pub const OPERATIONS: &[&str] = &[");
    reveal_strlit("];\n");
    reveal_strlit("];\n/// Two binaries agree on the operation space iff these match.\npub const QUERY_SPACE_HASH: u64 = 0x");
    reveal_strlit("/// Two binaries agree on the operation space iff these match.\n");
    reveal_strlit("pub const QUERY_SPACE_HASH: u64 = 0x");
    reveal_strlit(";\n\n");
    reveal_strlit(";\n");
    reveal_strlit("\n");
    let a = "/// Every operation the compiled client surface exposes.\n"@;
    let p = "pub const OPERATIONS: &[&str] = &["@ + names + "];\n"@;
    let b = "/// Two binaries agree on the operation space iff these match.\n"@;
    let r = "pub const QUERY_SPACE_HASH: u64 = 0x"@ + number + ";\n"@;
    assert("/// Every operation the compiled client surface exposes.\npub const OPERATIONS: &[&str] = &["@
        =~= a + "pub const OPERATIONS: &[&str] = &["@);
    assert("];\n/// Two binaries agree on the operation space iff these match.\npub const QUERY_SPACE_HASH: u64 = 0x"@
        =~= "];\n"@ + b + "pub const QUERY_SPACE_HASH: u64 = 0x"@);
    assert(";\n\n"@ =~= ";\n"@ + "\n"@);
    let consts = surface_consts(queries);
    assert(consts =~= a + p + b + r + "\n"@);
    itself(p);
    behind(a, p, p);
    in_front(a + p, b, p);
    in_front(a + p + b, r, p);
    in_front(a + p + b + r, "\n"@, p);
    itself(r);
    behind(a + p + b, r, r);
    in_front(a + p + b + r, "\n"@, r);
    behind(surface_head(source), consts, p);
    behind(surface_head(source), consts, r);
    in_front(surface_head(source) + consts, query_fns(s, queries, n), p);
    in_front(surface_head(source) + consts, query_fns(s, queries, n), r);
    list
}

} // verus!
