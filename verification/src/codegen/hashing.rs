//! What the hashes tell apart.

use crate::codegen::emit::{
    canonical, canonical_column, canonical_columns, canonical_type, fnv, hash_of,
};
use crate::codegen::generating::{behind, holds, in_front, itself};
use crate::codegen::laws::{
    decimal_digits, declaration_order_does_not_matter, distinct_queries, sorting_sorts,
    sound_query, sound_schema, split_at_separator,
};
use crate::codegen::queries::{
    canonical_queries, kind_word, shape_word, sorted, space_text, QueryKind, QueryShape, QueryView,
};
use crate::codegen::schema::{ColType, ColumnView, SchemaView};
use crate::codegen::text::{decimal, identifier, name_char};
use vstd::arithmetic::div_mod::{
    lemma_fundamental_div_mod, lemma_mod_multiples_vanish, lemma_mul_mod_noop_left,
};
use vstd::prelude::*;
use vstd::utf8::{encode_utf8, is_ascii_chars, is_ascii_chars_encode_utf8};

verus! {

// ---- Bytes ----

/// The factor is odd, so multiplying by it can be undone.
proof fn factor_is_undone(x: u64)
    ensures
        (x.wrapping_mul(0x0000_0100_0000_01b3) as int * 0xce96_5057_aff6_957b) % 0x1_0000_0000_0000_0000
            == x,
{
    let m: int = 0x1_0000_0000_0000_0000;
    let p: int = 0x0000_0100_0000_01b3;
    let q: int = 0xce96_5057_aff6_957b;
    let turns: int = 887285111055;
    lemma_mul_mod_noop_left(x * p, q, m);
    assert(x * p * q == m * (x * turns) + x) by (nonlinear_arith)
        requires
            p * q == turns * m + 1,
    ;
    lemma_mod_multiples_vanish(x * turns, x as int, m);
}

/// Different states stay different through a byte.
proof fn steps_are_told_apart(p: u64, q: u64)
    requires
        p.wrapping_mul(0x0000_0100_0000_01b3) == q.wrapping_mul(0x0000_0100_0000_01b3),
    ensures
        p == q,
{
    factor_is_undone(p);
    factor_is_undone(q);
}

/// The last byte can be taken off again: undoing the factor gives the hash of
/// what stands before it, with that byte mixed in. A text of no bytes hashes to
/// the offset.
pub proof fn the_last_byte_can_be_taken_off(data: Seq<u8>, byte: u8)
    ensures
        (fnv(data.push(byte)) as int * 0xce96_5057_aff6_957b) % 0x1_0000_0000_0000_0000 == fnv(data)
            ^ (byte as u64),
        fnv(Seq::empty()) == 0xcbf2_9ce4_8422_2325,
{
    factor_is_undone(fnv(data) ^ (byte as u64));
    assert(data.push(byte).drop_last() =~= data);
}

/// Texts that differ in one byte, and are as long, have different hashes.
pub proof fn one_byte_changes_the_hash(a: Seq<u8>, b: Seq<u8>, i: int)
    requires
        a.len() == b.len(),
        0 <= i < a.len(),
        a[i] != b[i],
        forall|j: int| 0 <= j < a.len() && j != i ==> #[trigger] a[j] == b[j],
    ensures
        fnv(a) != fnv(b),
    decreases a.len(),
{
    let x = fnv(a.drop_last());
    let y = fnv(b.drop_last());
    let m = a.last();
    let n = b.last();
    if fnv(a) == fnv(b) {
        steps_are_told_apart(x ^ m as u64, y ^ n as u64);
        if i == a.len() - 1 {
            assert(a.drop_last() =~= b.drop_last());
            assert(x ^ m as u64 == x ^ n as u64 ==> m == n) by (bit_vector);
        } else {
            one_byte_changes_the_hash(a.drop_last(), b.drop_last(), i);
            assert(x ^ m as u64 == y ^ m as u64 ==> x == y) by (bit_vector);
        }
    }
}

/// States that differ in their lowest byte only are far apart one step later.
proof fn steps_lead_apart(x: u64, y: u64)
    requires
        x != y,
        x / 256 == y / 256,
    ensures
        x.wrapping_mul(0x0000_0100_0000_01b3) / 256 != y.wrapping_mul(0x0000_0100_0000_01b3) / 256,
{
    let m: int = 0x1_0000_0000_0000_0000;
    let p: int = 0x0000_0100_0000_01b3;
    let u = x.wrapping_mul(0x0000_0100_0000_01b3) as int;
    let v = y.wrapping_mul(0x0000_0100_0000_01b3) as int;
    let d = x - y;
    assert(-256 < d < 256 && d != 0);
    let j = (x * p) / m;
    let k = (y * p) / m;
    assert(x * p == m * j + u) by {
        lemma_fundamental_div_mod(x * p, m);
    }
    assert(y * p == m * k + v) by {
        lemma_fundamental_div_mod(y * p, m);
    }
    assert(d * p == m * (j - k) + (u - v)) by (nonlinear_arith)
        requires
            d == x - y,
            x * p == m * j + u,
            y * p == m * k + v,
    ;
    if u / 256 == v / 256 {
        assert(-256 < u - v < 256);
    }
}

/// Texts that are as long, and differ in two adjacent bytes or in one of them,
/// have different hashes.
pub proof fn two_adjacent_bytes_change_the_hash(a: Seq<u8>, b: Seq<u8>, i: int)
    requires
        a.len() == b.len(),
        0 <= i < a.len() - 1,
        a[i] != b[i] || a[i + 1] != b[i + 1],
        forall|j: int| 0 <= j < a.len() && j != i && j != i + 1 ==> #[trigger] a[j] == b[j],
    ensures
        fnv(a) != fnv(b),
    decreases a.len(),
{
    let x = fnv(a.drop_last());
    let y = fnv(b.drop_last());
    let m = a.last();
    let n = b.last();
    if fnv(a) == fnv(b) {
        steps_are_told_apart(x ^ m as u64, y ^ n as u64);
        if i == a.len() - 2 {
            let front = a.drop_last().drop_last();
            assert(front =~= b.drop_last().drop_last());
            let s = fnv(front);
            let c = a[i];
            let d = b[i];
            assert(a.drop_last().last() == c && b.drop_last().last() == d);
            if c == d {
                assert(x ^ m as u64 == x ^ n as u64 ==> m == n) by (bit_vector);
            } else {
                assert(s ^ c as u64 == s ^ d as u64 ==> c == d) by (bit_vector);
                assert((s ^ c as u64) / 256 == (s ^ d as u64) / 256) by (bit_vector);
                steps_lead_apart(s ^ c as u64, s ^ d as u64);
                assert(x ^ m as u64 == y ^ n as u64 ==> x / 256 == y / 256) by (bit_vector);
            }
        } else {
            two_adjacent_bytes_change_the_hash(a.drop_last(), b.drop_last(), i);
            assert(x ^ m as u64 == y ^ m as u64 ==> x == y) by (bit_vector);
        }
    }
}

/// The same of texts: in ASCII, a character is a byte.
pub proof fn one_character_changes_the_hash(a: Seq<char>, b: Seq<char>, i: int)
    requires
        is_ascii_chars(a),
        is_ascii_chars(b),
        a.len() == b.len(),
        0 <= i < a.len(),
        a[i] != b[i],
        forall|j: int| 0 <= j < a.len() && j != i ==> #[trigger] a[j] == b[j],
    ensures
        fnv(encode_utf8(a)) != fnv(encode_utf8(b)),
{
    is_ascii_chars_encode_utf8(a);
    is_ascii_chars_encode_utf8(b);
    let x = encode_utf8(a);
    let y = encode_utf8(b);
    assert(a[i] as u8 == x[i] && b[i] as u8 == y[i]);
    assert forall|j: int| 0 <= j < x.len() && j != i implies #[trigger] x[j] == y[j] by {
        assert(a[j] as u8 == x[j] && b[j] as u8 == y[j]);
        assert(a[j] == b[j]);
    }
    one_byte_changes_the_hash(x, y, i);
}

// ---- Schemas ----

proof fn columns_are_ascii(columns: Seq<ColumnView>, n: int)
    requires
        n <= columns.len(),
        forall|i: int| 0 <= i < columns.len() ==> identifier((#[trigger] columns[i]).name),
    ensures
        is_ascii_chars(canonical_columns(columns, n)),
    decreases n,
{
    if n > 0 {
        columns_are_ascii(columns, n - 1);
        let c = columns[n - 1];
        column_is_ascii(c);
        let front = canonical_columns(columns, n - 1);
        let last = canonical_column(c);
        assert forall|i: int| 0 <= i < (front + last).len() implies '\0' <= #[trigger] (front
            + last)[i] <= '\u{7f}' by {
            if i < front.len() {
                assert((front + last)[i] == front[i]);
            } else {
                assert((front + last)[i] == last[i - front.len()]);
            }
        }
    }
}

proof fn column_is_ascii(c: ColumnView)
    requires
        identifier(c.name),
    ensures
        is_ascii_chars(canonical_column(c)),
{
    reveal_strlit("col=");
    reveal_strlit(":");
    reveal_strlit(";");
    reveal_strlit("pk");
    reveal_strlit("col");
    reveal_strlit("bigint");
    reveal_strlit("bytea(");
    reveal_strlit(")");
    let key = if c.primary_key {
        "pk"@
    } else {
        "col"@
    };
    if let ColType::FixedBytes(n) = c.ty {
        decimal_digits(n as nat);
        joined_is_ascii("bytea("@, decimal(n as nat));
        joined_is_ascii("bytea("@ + decimal(n as nat), ")"@);
    }
    let t = canonical_type(c.ty);
    assert(is_ascii_chars(c.name)) by {
        assert forall|i: int| 0 <= i < c.name.len() implies '\0' <= #[trigger] c.name[i]
            <= '\u{7f}' by {
            assert(name_char(c.name[i]));
        }
    }
    joined_is_ascii("col="@, c.name);
    joined_is_ascii("col="@ + c.name, ":"@);
    joined_is_ascii("col="@ + c.name + ":"@, t);
    joined_is_ascii("col="@ + c.name + ":"@ + t, ":"@);
    joined_is_ascii("col="@ + c.name + ":"@ + t + ":"@, key);
    joined_is_ascii("col="@ + c.name + ":"@ + t + ":"@ + key, ";"@);
}

proof fn joined_is_ascii(a: Seq<char>, b: Seq<char>)
    requires
        is_ascii_chars(a),
        is_ascii_chars(b),
    ensures
        is_ascii_chars(a + b),
{
    assert forall|i: int| 0 <= i < (a + b).len() implies '\0' <= #[trigger] (a + b)[i]
        <= '\u{7f}' by {
        if i < a.len() {
            assert((a + b)[i] == a[i]);
        } else {
            assert((a + b)[i] == b[i - a.len()]);
        }
    }
}

/// The text that stands for a sound schema is plain ASCII.
proof fn schemas_are_ascii(s: SchemaView)
    requires
        sound_schema(s),
    ensures
        is_ascii_chars(canonical(s)),
{
    reveal_strlit("dabqlite-schema-v1;table=");
    reveal_strlit(";");
    let head = "dabqlite-schema-v1;table="@;
    assert(is_ascii_chars(s.table)) by {
        assert forall|i: int| 0 <= i < s.table.len() implies '\0' <= #[trigger] s.table[i]
            <= '\u{7f}' by {
            assert(name_char(s.table[i]));
        }
    }
    let n = s.columns.len() as int;
    columns_are_ascii(s.columns, n);
    joined_is_ascii(head, s.table);
    joined_is_ascii(head + s.table, ";"@);
    joined_is_ascii(head + s.table + ";"@, canonical_columns(s.columns, n));
}

/// Sound schemas whose texts are as long and differ in one character, such as
/// one letter of a name or one digit of a width, have different hashes.
pub proof fn one_character_changes_the_schema_hash(a: SchemaView, b: SchemaView, i: int)
    requires
        sound_schema(a),
        sound_schema(b),
        canonical(a).len() == canonical(b).len(),
        0 <= i < canonical(a).len(),
        canonical(a)[i] != canonical(b)[i],
        forall|j: int|
            0 <= j < canonical(a).len() && j != i ==> #[trigger] canonical(a)[j] == canonical(b)[j],
    ensures
        hash_of(a) != hash_of(b),
{
    schemas_are_ascii(a);
    schemas_are_ascii(b);
    one_character_changes_the_hash(canonical(a), canonical(b), i);
}

/// So have those that differ in two adjacent characters, such as the digits of
/// a width.
pub proof fn two_adjacent_characters_change_the_schema_hash(a: SchemaView, b: SchemaView, i: int)
    requires
        sound_schema(a),
        sound_schema(b),
        canonical(a).len() == canonical(b).len(),
        0 <= i < canonical(a).len() - 1,
        canonical(a)[i] != canonical(b)[i] || canonical(a)[i + 1] != canonical(b)[i + 1],
        forall|j: int|
            0 <= j < canonical(a).len() && j != i && j != i + 1 ==> #[trigger] canonical(a)[j]
                == canonical(b)[j],
    ensures
        hash_of(a) != hash_of(b),
{
    schemas_are_ascii(a);
    schemas_are_ascii(b);
    let s = canonical(a);
    let t = canonical(b);
    is_ascii_chars_encode_utf8(s);
    is_ascii_chars_encode_utf8(t);
    let x = encode_utf8(s);
    let y = encode_utf8(t);
    assert(s[i] as u8 == x[i] && t[i] as u8 == y[i]);
    assert(s[i + 1] as u8 == x[i + 1] && t[i + 1] as u8 == y[i + 1]);
    assert forall|j: int| 0 <= j < x.len() && j != i && j != i + 1 implies #[trigger] x[j]
        == y[j] by {
        assert(s[j] as u8 == x[j] && t[j] as u8 == y[j]);
        assert(s[j] == t[j]);
    }
    two_adjacent_bytes_change_the_hash(x, y, i);
}

// ---- Operation spaces ----

/// A query's text up to its semicolon.
spec fn query_body(q: QueryView) -> Seq<char> {
    q.name + seq![':'] + (kind_word(q.kind) + seq![':'] + shape_word(q.shape))
}

proof fn words_are_plain(q: QueryView)
    ensures
        forall|i: int|
            0 <= i < kind_word(q.kind).len() ==> (#[trigger] kind_word(q.kind)[i]) != ':'
                && kind_word(q.kind)[i] != ';',
        forall|i: int|
            0 <= i < shape_word(q.shape).len() ==> (#[trigger] shape_word(q.shape)[i]) != ';',
{
    reveal_strlit("one");
    reveal_strlit("exec");
    reveal_strlit("select_by_pk");
    reveal_strlit("insert_row");
}

proof fn words_are_told_apart(a: QueryView, b: QueryView)
    ensures
        kind_word(a.kind) == kind_word(b.kind) ==> a.kind == b.kind,
        shape_word(a.shape) == shape_word(b.shape) ==> a.shape == b.shape,
{
    reveal_strlit("one");
    reveal_strlit("exec");
    reveal_strlit("select_by_pk");
    reveal_strlit("insert_row");
    assert(kind_word(QueryKind::One).len() == 3 && kind_word(QueryKind::Exec).len() == 4);
    assert(shape_word(QueryShape::SelectByPk).len() == 12);
    assert(shape_word(QueryShape::InsertRow).len() == 10);
}

/// The text of one query.
spec fn query_text(q: QueryView) -> Seq<char> {
    q.name + ":"@ + kind_word(q.kind) + ":"@ + shape_word(q.shape) + ";"@
}

proof fn query_has_its_body(q: QueryView)
    requires
        sound_query(q),
    ensures
        query_text(q) == query_body(q) + seq![';'],
        forall|i: int| 0 <= i < query_body(q).len() ==> #[trigger] query_body(q)[i] != ';',
{
    reveal_strlit(":");
    reveal_strlit(";");
    words_are_plain(q);
    assert(query_text(q) =~= query_body(q) + seq![';']);
    let b = query_body(q);
    let n = q.name.len() as int;
    let k = kind_word(q.kind);
    let w = shape_word(q.shape);
    assert forall|i: int| 0 <= i < b.len() implies #[trigger] b[i] != ';' by {
        if i < n {
            assert(b[i] == q.name[i]);
        } else if n < i <= n + k.len() {
            assert(b[i] == k[i - n - 1]);
        } else if i > n + 1 + k.len() {
            assert(b[i] == w[i - n - k.len() - 2]);
        }
    }
}

proof fn queries_with_one_body(a: QueryView, b: QueryView)
    requires
        sound_query(a),
        sound_query(b),
        query_body(a) == query_body(b),
    ensures
        a == b,
{
    words_are_plain(a);
    words_are_plain(b);
    words_are_told_apart(a, b);
    let x = kind_word(a.kind) + seq![':'] + shape_word(a.shape);
    let y = kind_word(b.kind) + seq![':'] + shape_word(b.shape);
    split_at_separator(a.name, b.name, ':', x, y);
    split_at_separator(
        kind_word(a.kind),
        kind_word(b.kind),
        ':',
        shape_word(a.shape),
        shape_word(b.shape),
    );
}

/// The first query's text stands in front.
proof fn first_query_in_front(list: Seq<QueryView>, n: int)
    requires
        0 < n <= list.len(),
    ensures
        canonical_queries(list, n) == query_text(list[0]) + canonical_queries(
            list.drop_first(),
            n - 1,
        ),
    decreases n,
{
    if n > 1 {
        first_query_in_front(list, n - 1);
        let first = query_text(list[0]);
        let middle = canonical_queries(list.drop_first(), n - 2);
        let last = query_text(list[n - 1]);
        assert(list.drop_first()[n - 2] == list[n - 1]);
        assert(first + middle + last =~= first + (middle + last));
    } else {
        assert(canonical_queries(list, 0) =~= Seq::<char>::empty());
        assert(canonical_queries(list.drop_first(), 0) =~= Seq::<char>::empty());
        assert(canonical_queries(list, 1) =~= query_text(list[0]) + Seq::<char>::empty());
    }
}

#[verifier::spinoff_prover]
proof fn lists_are_told_apart(a: Seq<QueryView>, b: Seq<QueryView>)
    requires
        forall|i: int| 0 <= i < a.len() ==> sound_query(#[trigger] a[i]),
        forall|i: int| 0 <= i < b.len() ==> sound_query(#[trigger] b[i]),
        canonical_queries(a, a.len() as int) == canonical_queries(b, b.len() as int),
    ensures
        a == b,
    decreases a.len(),
{
    if a.len() > 0 {
        first_query_in_front(a, a.len() as int);
        query_has_its_body(a[0]);
    }
    if b.len() > 0 {
        first_query_in_front(b, b.len() as int);
        query_has_its_body(b[0]);
    }
    if a.len() > 0 && b.len() > 0 {
        let c = a.drop_first();
        let d = b.drop_first();
        let x = canonical_queries(c, c.len() as int);
        let y = canonical_queries(d, d.len() as int);
        split_at_separator(query_body(a[0]), query_body(b[0]), ';', x, y);
        queries_with_one_body(a[0], b[0]);
        lists_are_told_apart(c, d);
        assert(a =~= seq![a[0]] + c);
        assert(b =~= seq![b[0]] + d);
    } else {
        assert(a =~= b);
    }
}

/// What is sorted is still what it was.
proof fn sorted_is_sound(queries: Seq<QueryView>)
    requires
        forall|i: int| 0 <= i < queries.len() ==> sound_query(#[trigger] queries[i]),
    ensures
        ({
            let list = sorted(queries, queries.len() as int);
            &&& list.to_multiset() == queries.to_multiset()
            &&& forall|i: int| 0 <= i < list.len() ==> sound_query(#[trigger] list[i])
        }),
{
    broadcast use vstd::seq_lib::group_to_multiset_ensures;

    let n = queries.len() as int;
    let list = sorted(queries, n);
    sorting_sorts(queries, n);
    assert(queries.take(n) =~= queries);
    assert forall|i: int| 0 <= i < list.len() implies sound_query(#[trigger] list[i]) by {
        assert(list.contains(list[i]));
        assert(queries.to_multiset().count(list[i]) > 0);
        assert(queries.contains(list[i]));
    }
}

/// The text that is hashed holds the whole operation space: two sound spaces
/// have the same text exactly when they declare the same queries. Dropping a
/// query, adding one, renaming one or changing what one does changes it.
pub proof fn operation_text_is_faithful(a: Seq<QueryView>, b: Seq<QueryView>)
    requires
        distinct_queries(a),
        forall|i: int| 0 <= i < a.len() ==> sound_query(#[trigger] a[i]),
        forall|i: int| 0 <= i < b.len() ==> sound_query(#[trigger] b[i]),
    ensures
        space_text(a) == space_text(b) <==> a.to_multiset() == b.to_multiset(),
{
    if a.to_multiset() == b.to_multiset() {
        declaration_order_does_not_matter(a, b);
    }
    if space_text(a) == space_text(b) {
        let x = sorted(a, a.len() as int);
        let y = sorted(b, b.len() as int);
        let n = "dabqlite-queries-v1;"@.len() as int;
        assert(space_text(a).skip(n) =~= canonical_queries(x, x.len() as int));
        assert(space_text(b).skip(n) =~= canonical_queries(y, y.len() as int));
        sorted_is_sound(a);
        sorted_is_sound(b);
        lists_are_told_apart(x, y);
    }
}

// ---- What the texts say ----

/// The text that a schema is hashed by begins with the table's name, and each
/// further column adds its own words at the end: its name, its type and whether
/// it is the key.
#[verifier::spinoff_prover]
pub proof fn a_column_adds_its_words(s: SchemaView, c: ColumnView)
    ensures
        s.columns.len() == 0 ==> canonical(s) == "dabqlite-schema-v1;table="@ + s.table + ";"@,
        ({
            let more = SchemaView { columns: s.columns.push(c), ..s };
            let role = if c.primary_key {
                ":pk;"@
            } else {
                ":col;"@
            };
            canonical(more) == canonical(s) + ("col="@ + c.name + match c.ty {
                ColType::BigInt => ":bigint"@,
                ColType::FixedBytes(n) => ":bytea("@ + decimal(n as nat) + ")"@,
            } + role)
        }),
{
    let n = s.columns.len() as int;
    let columns = s.columns.push(c);
    front_columns(columns, s.columns, n);
    reveal_strlit(":");
    reveal_strlit(";");
    reveal_strlit("pk");
    reveal_strlit("col");
    reveal_strlit(":pk;");
    reveal_strlit(":col;");
    reveal_strlit("bigint");
    reveal_strlit(":bigint");
    reveal_strlit("bytea(");
    reveal_strlit(":bytea(");
    assert(":"@ + "pk"@ + ";"@ =~= ":pk;"@);
    assert(":"@ + "col"@ + ";"@ =~= ":col;"@);
    assert(":"@ + "bigint"@ =~= ":bigint"@);
    assert(":"@ + "bytea("@ =~= ":bytea("@);
    let role = if c.primary_key {
        "pk"@
    } else {
        "col"@
    };
    let kind = match c.ty {
        ColType::BigInt => ":bigint"@,
        ColType::FixedBytes(w) => ":bytea("@ + decimal(w as nat) + ")"@,
    };
    assert(":"@ + canonical_type(c.ty) =~= kind);
    let head = "col="@ + c.name;
    assert(canonical_column(c) =~= head + (":"@ + canonical_type(c.ty)) + (":"@ + role + ";"@));
    let top = "dabqlite-schema-v1;table="@ + s.table + ";"@;
    assert(top + (canonical_columns(s.columns, n) + canonical_column(c)) =~= top
        + canonical_columns(s.columns, n) + canonical_column(c));
}

proof fn front_columns(a: Seq<ColumnView>, b: Seq<ColumnView>, n: int)
    requires
        n <= a.len(),
        n <= b.len(),
        forall|i: int| 0 <= i < n ==> #[trigger] a[i] == b[i],
    ensures
        canonical_columns(a, n) == canonical_columns(b, n),
    decreases n,
{
    if n > 0 {
        front_columns(a, b, n - 1);
    }
}

proof fn query_is_spelled(list: Seq<QueryView>, n: int, i: int)
    requires
        0 <= i < n <= list.len(),
    ensures
        holds(
            canonical_queries(list, n),
            list[i].name + ":"@ + kind_word(list[i].kind) + ":"@ + shape_word(list[i].shape) + ";"@,
        ),
    decreases n,
{
    let q = list[n - 1];
    let last = q.name + ":"@ + kind_word(q.kind) + ":"@ + shape_word(q.shape) + ";"@;
    if i == n - 1 {
        itself(last);
        behind(canonical_queries(list, n - 1), last, last);
    } else {
        query_is_spelled(list, n - 1, i);
        in_front(
            canonical_queries(list, n - 1),
            last,
            list[i].name + ":"@ + kind_word(list[i].kind) + ":"@ + shape_word(list[i].shape) + ";"@,
        );
    }
}

/// The text that an operation space is hashed by has every query in it: its
/// name, what it gives back and what it does.
#[verifier::spinoff_prover]
pub proof fn every_query_is_hashed(queries: Seq<QueryView>, i: int)
    requires
        0 <= i < queries.len(),
    ensures
        holds(
            space_text(queries),
            queries[i].name + match queries[i].kind {
                QueryKind::One => ":one"@,
                QueryKind::Exec => ":exec"@,
            } + match queries[i].shape {
                QueryShape::SelectByPk => ":select_by_pk;"@,
                QueryShape::InsertRow => ":insert_row;"@,
            },
        ),
{
    broadcast use vstd::seq_lib::group_to_multiset_ensures;

    let n = queries.len() as int;
    let q = queries[i];
    let list = sorted(queries, n);
    sorting_sorts(queries, n);
    assert(queries.take(n) =~= queries);
    assert(queries.contains(q));
    assert(queries.to_multiset().count(q) > 0);
    assert(list.contains(q));
    let k = choose|k: int| 0 <= k < list.len() && list[k] == q;
    query_is_spelled(list, list.len() as int, k);
    let piece = q.name + ":"@ + kind_word(q.kind) + ":"@ + shape_word(q.shape) + ";"@;
    behind("dabqlite-queries-v1;"@, canonical_queries(list, list.len() as int), piece);
    reveal_strlit(":");
    reveal_strlit(";");
    reveal_strlit("one");
    reveal_strlit(":one");
    reveal_strlit("exec");
    reveal_strlit(":exec");
    reveal_strlit("select_by_pk");
    reveal_strlit(":select_by_pk;");
    reveal_strlit("insert_row");
    reveal_strlit(":insert_row;");
    assert(":"@ + "one"@ =~= ":one"@);
    assert(":"@ + "exec"@ =~= ":exec"@);
    assert(":"@ + "select_by_pk"@ + ";"@ =~= ":select_by_pk;"@);
    assert(":"@ + "insert_row"@ + ";"@ =~= ":insert_row;"@);
    assert(piece =~= q.name + (":"@ + kind_word(q.kind)) + (":"@ + shape_word(q.shape) + ";"@));
}

} // verus!
