//! Layout, schema hash and the generated codec.

use crate::codegen::schema::{ColType, Column, ColumnView, Schema, SchemaView};
use crate::codegen::text::{
    chars_of, decimal, hex, push_decimal, push_hex, raised, raised_all, string_of, to_upper, upper,
};
use vstd::prelude::*;
use vstd::string::*;
use vstd::utf8::encode_utf8;

verus! {

/// Computed record layout: sequential field offsets, then the checksum, then
/// zero padding to an 8-byte multiple.
#[derive(Debug, Clone, PartialEq, Eq)]
pub struct Layout {
    pub field_offsets: Vec<usize>,
    pub crc_offset: usize,
    pub row_size: usize,
}

/// The bytes of the first `n` fields.
pub open spec fn width_sum(columns: Seq<ColumnView>, n: int) -> int
    decreases n,
{
    if n <= 0 {
        0
    } else {
        width_sum(columns, n - 1) + columns[n - 1].ty.spec_width()
    }
}

/// Where the checksum goes: behind the fields.
pub open spec fn crc_at(s: SchemaView) -> int {
    width_sum(s.columns, s.columns.len() as int)
}

/// The row's size: fields and checksum, rounded up to a multiple of eight.
pub open spec fn row_bytes(s: SchemaView) -> int {
    (crc_at(s) + 4 + 7) / 8 * 8
}

/// The row fits the address space.
pub open spec fn addressable(s: SchemaView) -> bool {
    crc_at(s) + 11 <= usize::MAX
}

pub proof fn width_sum_grows(columns: Seq<ColumnView>, m: int, n: int)
    requires
        0 <= m <= n,
    ensures
        0 <= width_sum(columns, m) <= width_sum(columns, n),
    decreases n,
{
    if m < n {
        width_sum_grows(columns, m, n - 1);
    } else if n > 0 {
        width_sum_grows(columns, n - 1, n - 1);
    }
}

impl Schema {
    pub fn layout(&self) -> (l: Layout)
        requires
            addressable(self@),
        ensures
            l.field_offsets@.len() == self@.columns.len(),
            forall|i: int|
                0 <= i < l.field_offsets@.len() ==> #[trigger] l.field_offsets@[i] == width_sum(
                    self@.columns,
                    i,
                ),
            l.crc_offset == crc_at(self@),
            l.row_size == row_bytes(self@),
    {
        let ghost cs = self@.columns;
        let mut offsets: Vec<usize> = Vec::new();
        let mut at: usize = 0;
        let mut i: usize = 0;
        while i < self.columns.len()
            invariant
                cs == self@.columns,
                cs.len() == self.columns@.len(),
                i <= cs.len(),
                addressable(self@),
                at == width_sum(cs, i as int),
                offsets@.len() == i,
                forall|j: int| 0 <= j < i ==> #[trigger] offsets@[j] == width_sum(cs, j),
            decreases cs.len() - i,
        {
            proof {
                width_sum_grows(cs, i + 1, cs.len() as int);
                assert(cs[i as int] == self.columns@[i as int]@);
            }
            offsets.push(at);
            at = at + self.columns[i].ty.width();
            i = i + 1;
        }
        Layout { field_offsets: offsets, crc_offset: at, row_size: (at + 4 + 7) / 8 * 8 }
    }

    /// Equal for two schemas exactly when they lay rows out alike, as far as
    /// 64 bits go: a hash of the canonical text.
    pub fn schema_hash(&self) -> (h: u64)
        ensures
            h == hash_of(self@),
    {
        let ghost cs = self@.columns;
        let mut canon = String::new();
        canon.append("dabqlite-schema-v1;table=");
        canon.append(self.table.as_str());
        canon.append(";");
        let ghost head = canon@;
        assert(head =~= "dabqlite-schema-v1;table="@ + self@.table + ";"@);
        assert(head + canonical_columns(cs, 0) =~= head);
        let mut i: usize = 0;
        while i < self.columns.len()
            invariant
                cs == self@.columns,
                cs.len() == self.columns@.len(),
                i <= cs.len(),
                canon@ == head + canonical_columns(cs, i as int),
            decreases cs.len() - i,
        {
            let col = &self.columns[i];
            assert(cs[i as int] == col@);
            let ghost before = canon@;
            canon.append("col=");
            canon.append(col.name.as_str());
            canon.append(":");
            match col.ty {
                ColType::BigInt => {
                    canon.append("bigint");
                },
                ColType::FixedBytes(n) => {
                    canon.append("bytea(");
                    push_decimal(&mut canon, n as usize);
                    canon.append(")");
                },
            }
            canon.append(":");
            canon.append(
                if col.primary_key {
                    "pk"
                } else {
                    "col"
                },
            );
            canon.append(";");
            proof {
                assert(canon@ =~= before + canonical_column(cs[i as int]));
                assert(canon@ =~= head + canonical_columns(cs, i + 1));
            }
            i = i + 1;
        }
        assert(canon@ == canonical(self@));
        fnv1a64(canon.as_str().as_bytes())
    }
}

/// A column's canonical text.
pub open spec fn canonical_column(c: ColumnView) -> Seq<char> {
    "col="@ + c.name + ":"@ + canonical_type(c.ty) + ":"@ + (if c.primary_key {
        "pk"@
    } else {
        "col"@
    }) + ";"@
}

pub open spec fn canonical_type(ty: ColType) -> Seq<char> {
    match ty {
        ColType::BigInt => "bigint"@,
        ColType::FixedBytes(n) => "bytea("@ + decimal(n as nat) + ")"@,
    }
}

pub open spec fn canonical_columns(columns: Seq<ColumnView>, n: int) -> Seq<char>
    decreases n,
{
    if n <= 0 {
        Seq::empty()
    } else {
        canonical_columns(columns, n - 1) + canonical_column(columns[n - 1])
    }
}

/// The text that identifies a schema: table, columns in order, their types,
/// and which is the key. Formatting, comments and indices are not in it.
pub open spec fn canonical(s: SchemaView) -> Seq<char> {
    "dabqlite-schema-v1;table="@ + s.table + ";"@ + canonical_columns(
        s.columns,
        s.columns.len() as int,
    )
}

pub open spec fn hash_of(s: SchemaView) -> u64 {
    fnv(encode_utf8(canonical(s)))
}

/// FNV-1a over 64 bits.
pub open spec fn fnv(data: Seq<u8>) -> u64
    decreases data.len(),
{
    if data.len() == 0 {
        0xcbf2_9ce4_8422_2325
    } else {
        (fnv(data.drop_last()) ^ data.last() as u64).wrapping_mul(0x0000_0100_0000_01b3)
    }
}

pub fn fnv1a64(data: &[u8]) -> (hash: u64)
    ensures
        hash == fnv(data@),
{
    let mut hash: u64 = 0xcbf2_9ce4_8422_2325;
    let mut i: usize = 0;
    assert(data@.take(0) =~= Seq::empty());
    while i < data.len()
        invariant
            i <= data@.len(),
            hash == fnv(data@.take(i as int)),
        decreases data@.len() - i,
    {
        assert(data@.take(i + 1).drop_last() =~= data@.take(i as int));
        hash = (hash ^ data[i] as u64).wrapping_mul(0x0000_0100_0000_01b3);
        i = i + 1;
    }
    assert(data@.take(i as int) =~= data@);
    hash
}

/// A name in camel case: each part between underscores capitalized. `upper`
/// says whether the next letter starts a part.
pub open spec fn camel_case(s: Seq<char>, upper: bool) -> Seq<char>
    decreases s.len(),
{
    if s.len() == 0 {
        Seq::empty()
    } else if s[0] == '_' {
        camel_case(s.drop_first(), true)
    } else if upper {
        seq![raised(s[0])] + camel_case(s.drop_first(), false)
    } else {
        seq![s[0]] + camel_case(s.drop_first(), false)
    }
}

fn camel(name: &str) -> (out: String)
    ensures
        out@ == camel_case(name@, true),
{
    let v = chars_of(name);
    let mut out = String::new();
    let mut up: bool = true;
    let mut i: usize = 0;
    assert(v@.skip(0) =~= v@);
    assert(out@ + camel_case(v@, true) =~= camel_case(v@, true));
    while i < v.len()
        invariant
            i <= v@.len(),
            v@ == name@,
            out@ + camel_case(v@.skip(i as int), up) == camel_case(name@, true),
        decreases v@.len() - i,
    {
        let c: char = v[i];
        let ghost rest = v@.skip(i as int);
        let ghost before = out@;
        assert(rest.drop_first() =~= v@.skip(i + 1));
        if c == '_' {
            up = true;
        } else if up {
            out.push(to_upper(c));
            up = false;
            assert(out@ + camel_case(rest.drop_first(), false) =~= before + camel_case(rest, true));
        } else {
            out.push(c);
            assert(out@ + camel_case(rest.drop_first(), false) =~= before + camel_case(
                rest,
                false,
            ));
        }
        i = i + 1;
    }
    assert(out@ + camel_case(v@.skip(i as int), up) =~= out@);
    out
}

// ---- The generated codec ----

/// The checksum code that every generated codec carries.
pub const CRC_CODE: &'static str =
    "const GEN_CRC_POLY: u32 = 0xEDB8_8320;\nconst fn gen_crc_table() -> [u32; 256] {\n    let mut table = [0u32; 256];\n    let mut i = 0;\n    while i < 256 {\n        let mut crc = i as u32;\n        let mut bit = 0;\n        while bit < 8 {\n            crc = if crc & 1 != 0 { (crc >> 1) ^ GEN_CRC_POLY } else { crc >> 1 };\n            bit += 1;\n        }\n        table[i] = crc;\n        i += 1;\n    }\n    table\n}\nstatic GEN_CRC_TABLE: [u32; 256] = gen_crc_table();\nfn gen_crc32(data: &[u8]) -> u32 {\n    let mut crc = !0u32;\n    for &byte in data {\n        crc = (crc >> 8) ^ GEN_CRC_TABLE[((crc ^ byte as u32) & 0xFF) as usize];\n    }\n    !crc\n}\n\n";

/// The names that a schema's code is built from.
pub open spec fn row_name(s: SchemaView) -> Seq<char> {
    camel_case(s.table, true) + "Row"@
}

pub open spec fn prefix(s: SchemaView) -> Seq<char> {
    raised_all(s.table)
}

/// The generated file's first lines.
pub open spec fn banner_text(source: Seq<char>) -> Seq<char> {
    "// @generated by dabqlite-codegen from "@ + source + ". DO NOT EDIT.\n// Layout and hash derive from the schema; regenerate with:\n//   cargo run -p dabqlite-codegen -- "@ + source + " <this file>\n\n"@
}

fn emit_banner(o: &mut String, source: &str)
    ensures
        final(o)@ == old(o)@ + banner_text(source@),
{
    o.append("// @generated by dabqlite-codegen from ");
    o.append(source);
    o.append(". DO NOT EDIT.\n// Layout and hash derive from the schema; regenerate with:\n//   cargo run -p dabqlite-codegen -- ");
    o.append(source);
    o.append(" <this file>\n\n");
    assert(o@ =~= old(o)@ + banner_text(source@));
}

/// The table's name as a constant.
pub open spec fn table_const_text(s: SchemaView) -> Seq<char> {
    "pub const "@ + prefix(s) + "_TABLE: &str = \""@ + s.table + "\";\n"@
}

fn emit_table_const(o: &mut String, up: &str, table: &str, Ghost(s): Ghost<SchemaView>)
    requires
        up@ == prefix(s),
        table@ == s.table,
    ensures
        final(o)@ == old(o)@ + table_const_text(s),
{
    o.append("pub const ");
    o.append(up);
    o.append("_TABLE: &str = \"");
    o.append(table);
    o.append("\";\n");
    assert(o@ =~= old(o)@ + table_const_text(s));
}

/// The schema's hash as a constant.
pub open spec fn hash_const_text(s: SchemaView) -> Seq<char> {
    "pub const "@ + prefix(s) + "_SCHEMA_HASH: u64 = 0x"@ + hex(hash_of(s) as nat, 16) + ";\n"@
}

fn emit_hash_const(o: &mut String, up: &str, hash: u64, Ghost(s): Ghost<SchemaView>)
    requires
        up@ == prefix(s),
        hash == hash_of(s),
    ensures
        final(o)@ == old(o)@ + hash_const_text(s),
{
    o.append("pub const ");
    o.append(up);
    o.append("_SCHEMA_HASH: u64 = 0x");
    push_hex(o, hash, 16);
    o.append(";\n");
    assert(o@ =~= old(o)@ + hash_const_text(s));
}

/// The row's size as a constant.
pub open spec fn size_const_text(s: SchemaView) -> Seq<char> {
    "pub const "@ + prefix(s) + "_ROW_SIZE: usize = "@ + decimal(row_bytes(s) as nat) + ";\n"@
}

fn emit_size_const(o: &mut String, up: &str, size: usize, Ghost(s): Ghost<SchemaView>)
    requires
        up@ == prefix(s),
        size == row_bytes(s),
    ensures
        final(o)@ == old(o)@ + size_const_text(s),
{
    o.append("pub const ");
    o.append(up);
    o.append("_ROW_SIZE: usize = ");
    push_decimal(o, size);
    o.append(";\n");
    assert(o@ =~= old(o)@ + size_const_text(s));
}

/// The checksum's offset as a constant.
pub open spec fn crc_const_text(s: SchemaView) -> Seq<char> {
    "pub const "@ + prefix(s) + "_CRC_OFFSET: usize = "@ + decimal(crc_at(s) as nat) + ";\n"@
}

fn emit_crc_const(o: &mut String, up: &str, crc: usize, Ghost(s): Ghost<SchemaView>)
    requires
        up@ == prefix(s),
        crc == crc_at(s),
    ensures
        final(o)@ == old(o)@ + crc_const_text(s),
{
    o.append("pub const ");
    o.append(up);
    o.append("_CRC_OFFSET: usize = ");
    push_decimal(o, crc);
    o.append(";\n");
    assert(o@ =~= old(o)@ + crc_const_text(s));
}

/// A field's offset.
pub open spec fn offset_text(s: SchemaView, i: int) -> Seq<char> {
    "pub const "@ + prefix(s) + "_COL_"@ + raised_all(s.columns[i].name) + "_OFFSET: usize = "@ + decimal(width_sum(s.columns, i) as nat) + ";\n"@
}

fn emit_offset(o: &mut String, up: &str, name: &str, off: usize, Ghost(s): Ghost<SchemaView>, Ghost(i): Ghost<int>)
    requires
        up@ == prefix(s),
        name@ == raised_all(s.columns[i].name),
        off == width_sum(s.columns, i),
    ensures
        final(o)@ == old(o)@ + offset_text(s, i),
{
    o.append("pub const ");
    o.append(up);
    o.append("_COL_");
    o.append(name);
    o.append("_OFFSET: usize = ");
    push_decimal(o, off);
    o.append(";\n");
    assert(o@ =~= old(o)@ + offset_text(s, i));
}

/// A field's type in the row struct.
pub open spec fn field_type(ty: ColType) -> Seq<char> {
    match ty {
        ColType::BigInt => "u64"@,
        ColType::FixedBytes(n) => "[u8; "@ + decimal(n as nat) + "]"@,
    }
}

pub(crate) fn field_type_of(ty: ColType) -> (t: String)
    ensures
        t@ == field_type(ty),
{
    let mut t = String::new();
    match ty {
        ColType::BigInt => {
            t.append("u64");
        },
        ColType::FixedBytes(n) => {
            t.append("[u8; ");
            push_decimal(&mut t, n as usize);
            t.append("]");
        },
    }
    assert(t@ =~= field_type(ty));
    t
}

/// A field of the row struct.
pub open spec fn field_text(c: ColumnView) -> Seq<char> {
    "    pub "@ + c.name + ": "@ + field_type(c.ty) + ",\n"@
}

fn emit_field(o: &mut String, name: &str, ty: &str, Ghost(c): Ghost<ColumnView>)
    requires
        name@ == c.name,
        ty@ == field_type(c.ty),
    ensures
        final(o)@ == old(o)@ + field_text(c),
{
    o.append("    pub ");
    o.append(name);
    o.append(": ");
    o.append(ty);
    o.append(",\n");
    assert(o@ =~= old(o)@ + field_text(c));
}

/// The encoder's head.
pub open spec fn encode_head_text(s: SchemaView) -> Seq<char> {
    "pub fn encode_"@ + s.table + "_row(row: &"@ + row_name(s) + ", out: &mut [u8; "@ + prefix(s) + "_ROW_SIZE]) {\n"@
}

fn emit_encode_head(o: &mut String, table: &str, row: &str, up: &str, Ghost(s): Ghost<SchemaView>)
    requires
        table@ == s.table,
        row@ == row_name(s),
        up@ == prefix(s),
    ensures
        final(o)@ == old(o)@ + encode_head_text(s),
{
    o.append("pub fn encode_");
    o.append(table);
    o.append("_row(row: &");
    o.append(row);
    o.append(", out: &mut [u8; ");
    o.append(up);
    o.append("_ROW_SIZE]) {\n");
    assert(o@ =~= old(o)@ + encode_head_text(s));
}

/// What follows a field's name where it is encoded.
pub open spec fn encode_suffix(ty: ColType) -> Seq<char> {
    match ty {
        ColType::BigInt => ".to_le_bytes());\n"@,
        ColType::FixedBytes(_) => ");\n"@,
    }
}

fn encode_suffix_of(ty: ColType) -> (t: &'static str)
    ensures
        t@ == encode_suffix(ty),
{
    match ty {
        ColType::BigInt => ".to_le_bytes());\n",
        ColType::FixedBytes(_) => ");\n",
    }
}

/// A field's line in the encoder.
pub open spec fn encode_field_text(s: SchemaView, i: int) -> Seq<char> {
    "    out["@ + decimal(width_sum(s.columns, i) as nat) + ".."@ + decimal(width_sum(s.columns, i + 1) as nat) + "].copy_from_slice(&row."@ + s.columns[i].name + encode_suffix(s.columns[i].ty)
}

fn emit_encode_field(o: &mut String, name: &str, suffix: &str, off: usize, end: usize, Ghost(s): Ghost<SchemaView>, Ghost(i): Ghost<int>)
    requires
        name@ == s.columns[i].name,
        suffix@ == encode_suffix(s.columns[i].ty),
        off == width_sum(s.columns, i),
        end == width_sum(s.columns, i + 1),
    ensures
        final(o)@ == old(o)@ + encode_field_text(s, i),
{
    o.append("    out[");
    push_decimal(o, off);
    o.append("..");
    push_decimal(o, end);
    o.append("].copy_from_slice(&row.");
    o.append(name);
    o.append(suffix);
    assert(o@ =~= old(o)@ + encode_field_text(s, i));
}

/// The encoder's tail.
pub open spec fn encode_tail_text(s: SchemaView) -> Seq<char> {
    "    let crc = gen_crc32(&out[0.."@ + prefix(s) + "_CRC_OFFSET]);\n    out["@ + prefix(s) + "_CRC_OFFSET.."@ + prefix(s) + "_CRC_OFFSET + 4].copy_from_slice(&crc.to_le_bytes());\n    out["@ + prefix(s) + "_CRC_OFFSET + 4..].fill(0);\n    debug_assert_eq!(decode_"@ + s.table + "_row(out), Some(*row));\n}\n\n"@
}

fn emit_encode_tail(o: &mut String, table: &str, up: &str, Ghost(s): Ghost<SchemaView>)
    requires
        table@ == s.table,
        up@ == prefix(s),
    ensures
        final(o)@ == old(o)@ + encode_tail_text(s),
{
    o.append("    let crc = gen_crc32(&out[0..");
    o.append(up);
    o.append("_CRC_OFFSET]);\n    out[");
    o.append(up);
    o.append("_CRC_OFFSET..");
    o.append(up);
    o.append("_CRC_OFFSET + 4].copy_from_slice(&crc.to_le_bytes());\n    out[");
    o.append(up);
    o.append("_CRC_OFFSET + 4..].fill(0);\n    debug_assert_eq!(decode_");
    o.append(table);
    o.append("_row(out), Some(*row));\n}\n\n");
    assert(o@ =~= old(o)@ + encode_tail_text(s));
}

/// The decoder's head.
pub open spec fn decode_head_text(s: SchemaView) -> Seq<char> {
    "pub fn decode_"@ + s.table + "_row(bytes: &[u8]) -> Option<"@ + row_name(s) + "> {\n    if bytes.len() < "@ + prefix(s) + "_ROW_SIZE {\n        return None;\n    }\n    let stored = u32::from_le_bytes(bytes["@ + prefix(s) + "_CRC_OFFSET.."@ + prefix(s) + "_CRC_OFFSET + 4].try_into().ok()?);\n    if gen_crc32(&bytes[0.."@ + prefix(s) + "_CRC_OFFSET]) != stored {\n        return None;\n    }\n    if bytes["@ + prefix(s) + "_CRC_OFFSET + 4.."@ + prefix(s) + "_ROW_SIZE].iter().any(|&b| b != 0) {\n        return None;\n    }\n"@
}

fn emit_decode_head(o: &mut String, table: &str, row: &str, up: &str, Ghost(s): Ghost<SchemaView>)
    requires
        table@ == s.table,
        row@ == row_name(s),
        up@ == prefix(s),
    ensures
        final(o)@ == old(o)@ + decode_head_text(s),
{
    o.append("pub fn decode_");
    o.append(table);
    o.append("_row(bytes: &[u8]) -> Option<");
    o.append(row);
    o.append("> {\n    if bytes.len() < ");
    o.append(up);
    o.append("_ROW_SIZE {\n        return None;\n    }\n    let stored = u32::from_le_bytes(bytes[");
    o.append(up);
    o.append("_CRC_OFFSET..");
    o.append(up);
    o.append("_CRC_OFFSET + 4].try_into().ok()?);\n    if gen_crc32(&bytes[0..");
    o.append(up);
    o.append("_CRC_OFFSET]) != stored {\n        return None;\n    }\n    if bytes[");
    o.append(up);
    o.append("_CRC_OFFSET + 4..");
    o.append(up);
    o.append("_ROW_SIZE].iter().any(|&b| b != 0) {\n        return None;\n    }\n");
    assert(o@ =~= old(o)@ + decode_head_text(s));
}

/// A field's line in the decoder.
pub open spec fn decode_field_text(s: SchemaView, i: int) -> Seq<char> {
    let c = s.columns[i];
    let off = decimal(width_sum(s.columns, i) as nat);
    let end = decimal(width_sum(s.columns, i + 1) as nat);
    match c.ty {
        ColType::BigInt => "    let "@ + c.name + " = u64::from_le_bytes(bytes["@ + off + ".."@ + end
            + "].try_into().ok()?);\n"@,
        ColType::FixedBytes(n) => "    let "@ + c.name + ": [u8; "@ + decimal(n as nat)
            + "] = bytes["@ + off + ".."@ + end + "].try_into().ok()?;\n"@,
    }
}

fn emit_decode_field(
    o: &mut String,
    name: &str,
    ty: ColType,
    off: usize,
    end: usize,
    Ghost(s): Ghost<SchemaView>,
    Ghost(i): Ghost<int>,
)
    requires
        name@ == s.columns[i].name,
        ty == s.columns[i].ty,
        off == width_sum(s.columns, i),
        end == width_sum(s.columns, i + 1),
    ensures
        final(o)@ == old(o)@ + decode_field_text(s, i),
{
    o.append("    let ");
    o.append(name);
    match ty {
        ColType::BigInt => {
            o.append(" = u64::from_le_bytes(bytes[");
            push_decimal(o, off);
            o.append("..");
            push_decimal(o, end);
            o.append("].try_into().ok()?);\n");
        },
        ColType::FixedBytes(n) => {
            o.append(": [u8; ");
            push_decimal(o, n as usize);
            o.append("] = bytes[");
            push_decimal(o, off);
            o.append("..");
            push_decimal(o, end);
            o.append("].try_into().ok()?;\n");
        },
    }
    assert(o@ =~= old(o)@ + decode_field_text(s, i));
}

pub open spec fn offsets_text(s: SchemaView, n: int) -> Seq<char>
    decreases n,
{
    if n <= 0 {
        Seq::empty()
    } else {
        offsets_text(s, n - 1) + offset_text(s, n - 1)
    }
}

pub open spec fn fields_text(s: SchemaView, n: int) -> Seq<char>
    decreases n,
{
    if n <= 0 {
        Seq::empty()
    } else {
        fields_text(s, n - 1) + field_text(s.columns[n - 1])
    }
}

pub open spec fn encode_fields_text(s: SchemaView, n: int) -> Seq<char>
    decreases n,
{
    if n <= 0 {
        Seq::empty()
    } else {
        encode_fields_text(s, n - 1) + encode_field_text(s, n - 1)
    }
}

pub open spec fn decode_fields_text(s: SchemaView, n: int) -> Seq<char>
    decreases n,
{
    if n <= 0 {
        Seq::empty()
    } else {
        decode_fields_text(s, n - 1) + decode_field_text(s, n - 1)
    }
}

/// The first `n` columns' names, separated by commas.
pub open spec fn names_text(columns: Seq<ColumnView>, n: int) -> Seq<char>
    decreases n,
{
    if n <= 0 {
        Seq::empty()
    } else if n == 1 {
        columns[0].name
    } else {
        names_text(columns, n - 1) + ", "@ + columns[n - 1].name
    }
}

/// The whole generated file.
pub open spec fn rust_text(s: SchemaView, source: Seq<char>) -> Seq<char> {
    let n = s.columns.len() as int;
    banner_text(source) + table_const_text(s) + hash_const_text(s) + size_const_text(s)
        + crc_const_text(s) + offsets_text(s, n)
        + "\n#[derive(Debug, Clone, Copy, PartialEq, Eq)]\npub struct "@ + row_name(s) + " {\n"@
        + fields_text(s, n) + "}\n\n"@ + CRC_CODE@ + encode_head_text(s) + encode_fields_text(s, n)
        + encode_tail_text(s) + decode_head_text(s) + decode_fields_text(s, n) + "    Some("@
        + row_name(s) + " { "@ + names_text(s.columns, n) + " })\n}\n"@
}

/// The columns' names, separated by commas.
pub(crate) fn push_names(o: &mut String, columns: &Vec<Column>, Ghost(cs): Ghost<Seq<ColumnView>>)
    requires
        cs == crate::codegen::schema::columns_view(columns@),
    ensures
        final(o)@ == old(o)@ + names_text(cs, cs.len() as int),
{
    let mut i: usize = 0;
    assert(o@ =~= old(o)@ + names_text(cs, 0));
    while i < columns.len()
        invariant
            cs == crate::codegen::schema::columns_view(columns@),
            i <= cs.len(),
            o@ == old(o)@ + names_text(cs, i as int),
        decreases cs.len() - i,
    {
        assert(cs[i as int] == columns@[i as int]@);
        if i > 0 {
            o.append(", ");
        }
        o.append(columns[i].name.as_str());
        assert(o@ =~= old(o)@ + names_text(cs, i + 1));
        i = i + 1;
    }
}

/// Generate a codec for the schema.
#[verifier::rlimit(60)]
#[verifier::spinoff_prover]
pub fn emit_rust(schema: &Schema, source_name: &str) -> (o: String)
    requires
        addressable(schema@),
    ensures
        o@ == rust_text(schema@, source_name@),
{
    let ghost s = schema@;
    let ghost cs = s.columns;
    let layout = schema.layout();
    let mut row = camel(schema.table.as_str());
    row.append("Row");
    let up = string_of(upper(chars_of(schema.table.as_str()).as_slice()).as_slice());
    let mut o = String::new();
    emit_banner(&mut o, source_name);
    emit_table_const(&mut o, up.as_str(), schema.table.as_str(), Ghost(s));
    emit_hash_const(&mut o, up.as_str(), schema.schema_hash(), Ghost(s));
    emit_size_const(&mut o, up.as_str(), layout.row_size, Ghost(s));
    emit_crc_const(&mut o, up.as_str(), layout.crc_offset, Ghost(s));
    emit_offsets(&mut o, schema, &layout, up.as_str());
    o.append("\n#[derive(Debug, Clone, Copy, PartialEq, Eq)]\npub struct ");
    o.append(row.as_str());
    o.append(" {\n");
    emit_fields(&mut o, schema);
    o.append("}\n\n");
    o.append(CRC_CODE);
    emit_encode_head(&mut o, schema.table.as_str(), row.as_str(), up.as_str(), Ghost(s));
    emit_encode_fields(&mut o, schema, &layout);
    emit_encode_tail(&mut o, schema.table.as_str(), up.as_str(), Ghost(s));
    emit_decode_head(&mut o, schema.table.as_str(), row.as_str(), up.as_str(), Ghost(s));
    emit_decode_fields(&mut o, schema, &layout);
    o.append("    Some(");
    o.append(row.as_str());
    o.append(" { ");
    push_names(&mut o, &schema.columns, Ghost(cs));
    o.append(" })\n}\n");
    assert(o@ =~= rust_text(schema@, source_name@));
    o
}

/// The layout is the schema's.
spec fn laid_out(l: Layout, s: SchemaView) -> bool {
    &&& addressable(s)
    &&& l.field_offsets@.len() == s.columns.len()
    &&& forall|i: int|
        0 <= i < l.field_offsets@.len() ==> #[trigger] l.field_offsets@[i] == width_sum(s.columns, i)
}

fn emit_offsets(o: &mut String, schema: &Schema, layout: &Layout, up: &str)
    requires
        laid_out(*layout, schema@),
        up@ == prefix(schema@),
    ensures
        final(o)@ == old(o)@ + offsets_text(schema@, schema@.columns.len() as int),
{
    let ghost s = schema@;
    let mut i: usize = 0;
    assert(o@ =~= old(o)@ + offsets_text(s, 0));
    while i < schema.columns.len()
        invariant
            s == schema@,
            i <= s.columns.len(),
            s.columns.len() == schema.columns@.len(),
            laid_out(*layout, s),
            up@ == prefix(s),
            o@ == old(o)@ + offsets_text(s, i as int),
        decreases s.columns.len() - i,
    {
        assert(s.columns[i as int] == schema.columns@[i as int]@);
        assert(layout.field_offsets@[i as int] == width_sum(s.columns, i as int));
        let name = string_of(upper(chars_of(schema.columns[i].name.as_str()).as_slice()).as_slice());
        emit_offset(o, up, name.as_str(), layout.field_offsets[i], Ghost(s), Ghost(i as int));
        assert(o@ =~= old(o)@ + offsets_text(s, i + 1));
        i = i + 1;
    }
}

fn emit_fields(o: &mut String, schema: &Schema)
    ensures
        final(o)@ == old(o)@ + fields_text(schema@, schema@.columns.len() as int),
{
    let ghost s = schema@;
    let mut i: usize = 0;
    assert(o@ =~= old(o)@ + fields_text(s, 0));
    while i < schema.columns.len()
        invariant
            s == schema@,
            i <= s.columns.len(),
            s.columns.len() == schema.columns@.len(),
            o@ == old(o)@ + fields_text(s, i as int),
        decreases s.columns.len() - i,
    {
        let col = &schema.columns[i];
        assert(s.columns[i as int] == col@);
        emit_field(o, col.name.as_str(), field_type_of(col.ty).as_str(), Ghost(col@));
        assert(o@ =~= old(o)@ + fields_text(s, i + 1));
        i = i + 1;
    }
}

fn emit_encode_fields(o: &mut String, schema: &Schema, layout: &Layout)
    requires
        laid_out(*layout, schema@),
    ensures
        final(o)@ == old(o)@ + encode_fields_text(schema@, schema@.columns.len() as int),
{
    let ghost s = schema@;
    let mut i: usize = 0;
    assert(o@ =~= old(o)@ + encode_fields_text(s, 0));
    while i < schema.columns.len()
        invariant
            s == schema@,
            i <= s.columns.len(),
            s.columns.len() == schema.columns@.len(),
            laid_out(*layout, s),
            o@ == old(o)@ + encode_fields_text(s, i as int),
        decreases s.columns.len() - i,
    {
        let col = &schema.columns[i];
        let off: usize = layout.field_offsets[i];
        proof {
            assert(s.columns[i as int] == col@);
            width_sum_grows(s.columns, i + 1, s.columns.len() as int);
        }
        emit_encode_field(
            o,
            col.name.as_str(),
            encode_suffix_of(col.ty),
            off,
            off + col.ty.width(),
            Ghost(s),
            Ghost(i as int),
        );
        assert(o@ =~= old(o)@ + encode_fields_text(s, i + 1));
        i = i + 1;
    }
}

fn emit_decode_fields(o: &mut String, schema: &Schema, layout: &Layout)
    requires
        laid_out(*layout, schema@),
    ensures
        final(o)@ == old(o)@ + decode_fields_text(schema@, schema@.columns.len() as int),
{
    let ghost s = schema@;
    let mut i: usize = 0;
    assert(o@ =~= old(o)@ + decode_fields_text(s, 0));
    while i < schema.columns.len()
        invariant
            s == schema@,
            i <= s.columns.len(),
            s.columns.len() == schema.columns@.len(),
            laid_out(*layout, s),
            o@ == old(o)@ + decode_fields_text(s, i as int),
        decreases s.columns.len() - i,
    {
        let col = &schema.columns[i];
        let off: usize = layout.field_offsets[i];
        proof {
            assert(s.columns[i as int] == col@);
            width_sum_grows(s.columns, i + 1, s.columns.len() as int);
        }
        emit_decode_field(
            o,
            col.name.as_str(),
            col.ty,
            off,
            off + col.ty.width(),
            Ghost(s),
            Ghost(i as int),
        );
        assert(o@ =~= old(o)@ + decode_fields_text(s, i + 1));
        i = i + 1;
    }
}

} // verus!
