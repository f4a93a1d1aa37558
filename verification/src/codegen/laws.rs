//! What holds of every schema and operation space that is accepted.

use crate::codegen::emit::{
    canonical, canonical_column, canonical_columns, canonical_type, crc_at, hash_of, row_bytes,
    width_sum, width_sum_grows,
};
use crate::codegen::queries::{
    declare_line, declare_lines, has_query, name_le, place, queries_of, sorted, space_hash,
    space_text, Declared, QueryKind, QueryShape, QueryView,
};
use crate::codegen::schema::{
    key_count, read_line, read_lines, schema_of, ColType, ColumnView, Reading, SchemaView,
};
use crate::codegen::text::{decimal, digit_char, identifier, lines};
use vstd::prelude::*;
use vstd::relations::{sorted_by, total_ordering};
use vstd::seq_lib::lemma_sorted_unique;

verus! {

// ---- Schemas ----

/// A column as it may be declared.
pub open spec fn sound_column(c: ColumnView) -> bool {
    &&& identifier(c.name)
    &&& match c.ty {
        ColType::BigInt => !c.trigram,
        ColType::FixedBytes(n) => 1 <= n <= 256,
    }
}

pub open spec fn distinct_columns(columns: Seq<ColumnView>) -> bool {
    forall|i: int, j: int|
        0 <= i < j < columns.len() ==> (#[trigger] columns[i]).name != (#[trigger] columns[j]).name
}

/// Named columns of known width, each name once, and a `BIGINT` key in front.
pub open spec fn sound_columns(columns: Seq<ColumnView>) -> bool {
    &&& forall|i: int| 0 <= i < columns.len() ==> sound_column(#[trigger] columns[i])
    &&& distinct_columns(columns)
}

pub open spec fn sound_schema(s: SchemaView) -> bool {
    &&& identifier(s.table)
    &&& s.columns.len() > 0
    &&& sound_columns(s.columns)
    &&& s.columns[0].ty == ColType::BigInt
    &&& forall|i: int|
        0 <= i < s.columns.len() ==> ((#[trigger] s.columns[i]).primary_key <==> i == 0)
}

spec fn sound_reading(at: Reading) -> bool {
    match at {
        Reading::Start => true,
        Reading::Columns(s) => identifier(s.table) && sound_columns(s.columns),
        Reading::Closed(s) => identifier(s.table) && sound_columns(s.columns),
    }
}

proof fn lines_keep_soundness(all: Seq<Seq<char>>, n: int)
    ensures
        match read_lines(all, n) {
            Ok(at) => sound_reading(at),
            Err(_) => true,
        },
    decreases n,
{
    if n > 0 {
        lines_keep_soundness(all, n - 1);
        if let Ok(at) = read_lines(all, n - 1) {
            if let Ok(next) = read_line(at, n, all[n - 1]) {
                if let Reading::Columns(s) = at {
                    if let Reading::Columns(t) = next {
                        assert forall|i: int, j: int|
                            0 <= i < j < t.columns.len() implies (#[trigger] t.columns[i]).name != (
                        #[trigger] t.columns[j]).name by {
                            if j == s.columns.len() && t.columns.len() > s.columns.len() {
                                assert(s.columns[i].name == t.columns[i].name);
                            }
                        }
                    }
                }
            }
        }
    }
}

proof fn keys_add_up(columns: Seq<ColumnView>, i: int, n: int)
    requires
        0 <= i < n <= columns.len(),
        columns[i].primary_key,
    ensures
        key_count(columns, n) >= 1 + key_count(columns, i),
    decreases n,
{
    if i < n - 1 {
        keys_add_up(columns, i, n - 1);
    }
}

/// Whatever text is accepted as a schema, the schema is sound.
pub proof fn parsed_schemas_are_sound(sql: Seq<char>)
    ensures
        match schema_of(sql) {
            Ok(s) => sound_schema(s),
            Err(_) => true,
        },
{
    lines_keep_soundness(lines(sql), lines(sql).len() as int);
    if let Ok(s) = schema_of(sql) {
        let n = s.columns.len() as int;
        assert forall|i: int| 0 <= i < n implies ((#[trigger] s.columns[i]).primary_key <==> i
            == 0) by {
            if i > 0 && s.columns[i].primary_key {
                keys_add_up(s.columns, i, n);
                keys_add_up(s.columns, 0, i);
            }
        }
    }
}

/// Every field has its own bytes, in the order of the columns, in front of the
/// checksum; the row ends at the first multiple of eight behind it.
pub proof fn fields_tile_the_row(s: SchemaView, i: int)
    requires
        0 <= i < s.columns.len(),
    ensures
        width_sum(s.columns, 0) == 0,
        width_sum(s.columns, i) + s.columns[i].ty.spec_width() == width_sum(s.columns, i + 1),
        width_sum(s.columns, i + 1) <= crc_at(s),
        crc_at(s) + 4 <= row_bytes(s) < crc_at(s) + 12,
        row_bytes(s) % 8 == 0,
{
    width_sum_grows(s.columns, i + 1, s.columns.len() as int);
}

/// The same schema but for its indices.
pub open spec fn alike(a: SchemaView, b: SchemaView) -> bool {
    &&& a.table == b.table
    &&& a.columns.len() == b.columns.len()
    &&& forall|i: int|
        0 <= i < a.columns.len() ==> #[trigger] a.columns[i] == (ColumnView {
            trigram: a.columns[i].trigram,
            ..b.columns[i]
        })
}

proof fn alike_so_far(a: SchemaView, b: SchemaView, n: int)
    requires
        alike(a, b),
        n <= a.columns.len(),
    ensures
        width_sum(a.columns, n) == width_sum(b.columns, n),
        canonical_columns(a.columns, n) == canonical_columns(b.columns, n),
    decreases n,
{
    if n > 0 {
        alike_so_far(a, b, n - 1);
        assert(a.columns[n - 1].ty == b.columns[n - 1].ty);
    }
}

/// An index shapes the operations there are, never the bytes on disk: with it
/// or without it the layout and the hash are the same.
pub proof fn indices_do_not_touch_the_layout(a: SchemaView, b: SchemaView)
    requires
        alike(a, b),
    ensures
        forall|i: int|
            0 <= i <= a.columns.len() ==> width_sum(a.columns, i) == #[trigger] width_sum(
                b.columns,
                i,
            ),
        crc_at(a) == crc_at(b),
        row_bytes(a) == row_bytes(b),
        hash_of(a) == hash_of(b),
{
    assert forall|i: int| 0 <= i <= a.columns.len() implies width_sum(a.columns, i)
        == #[trigger] width_sum(b.columns, i) by {
        alike_so_far(a, b, i);
    }
    alike_so_far(a, b, a.columns.len() as int);
}

// ---- The canonical text ----

/// No separator is among the characters.
spec fn plain(s: Seq<char>) -> bool {
    forall|i: int| 0 <= i < s.len() ==> #[trigger] s[i] != ':' && s[i] != ';'
}

/// What stands in front of a separator and what stands behind it can be told
/// apart.
pub(crate) proof fn split_at_separator(a: Seq<char>, b: Seq<char>, c: char, x: Seq<char>, y: Seq<char>)
    requires
        a + seq![c] + x == b + seq![c] + y,
        forall|i: int| 0 <= i < a.len() ==> #[trigger] a[i] != c,
        forall|i: int| 0 <= i < b.len() ==> #[trigger] b[i] != c,
    ensures
        a == b,
        x == y,
{
    let s = a + seq![c] + x;
    let t = b + seq![c] + y;
    if a.len() < b.len() {
        assert(s[a.len() as int] == c);
        assert(t[a.len() as int] == b[a.len() as int]);
    }
    if b.len() < a.len() {
        assert(t[b.len() as int] == c);
        assert(s[b.len() as int] == a[b.len() as int]);
    }
    assert forall|i: int| 0 <= i < a.len() implies a[i] == b[i] by {
        assert(s[i] == a[i] && t[i] == b[i]);
    }
    assert(a =~= b);
    assert(s.len() == t.len());
    assert forall|i: int| 0 <= i < x.len() implies x[i] == y[i] by {
        assert(s[a.len() + 1 + i] == x[i] && t[a.len() + 1 + i] == y[i]);
    }
    assert(x =~= y);
}

pub(crate) proof fn decimal_digits(n: nat)
    ensures
        decimal(n).len() > 0,
        forall|i: int| 0 <= i < decimal(n).len() ==> '0' <= #[trigger] decimal(n)[i] <= '9',
    decreases n,
{
    if n >= 10 {
        decimal_digits(n / 10);
    }
}

proof fn decimal_tells_numbers_apart(m: nat, n: nat)
    requires
        decimal(m) == decimal(n),
    ensures
        m == n,
    decreases m,
{
    decimal_digits(m / 10);
    decimal_digits(n / 10);
    let a = decimal(m);
    let b = decimal(n);
    assert(a.last() == digit_char((m % 10) as int));
    assert(b.last() == digit_char((n % 10) as int));
    assert(m % 10 == n % 10);
    if m >= 10 && n >= 10 {
        assert(a.drop_last() =~= decimal(m / 10));
        assert(b.drop_last() =~= decimal(n / 10));
        decimal_tells_numbers_apart(m / 10, n / 10);
    } else if m >= 10 {
        assert(a.len() >= 2 && b.len() == 1);
    } else if n >= 10 {
        assert(b.len() >= 2 && a.len() == 1);
    }
}

proof fn types_are_plain(ty: ColType)
    ensures
        plain(canonical_type(ty)),
{
    reveal_strlit("bigint");
    reveal_strlit("bytea(");
    reveal_strlit(")");
    if let ColType::FixedBytes(n) = ty {
        decimal_digits(n as nat);
        let d = decimal(n as nat);
        let t = "bytea("@ + d + ")"@;
        assert forall|i: int| 0 <= i < t.len() implies #[trigger] t[i] != ':' && t[i] != ';' by {
            if 6 <= i < 6 + d.len() {
                assert(t[i] == d[i - 6]);
            }
        }
    }
}

proof fn types_are_told_apart(a: ColType, b: ColType)
    requires
        canonical_type(a) == canonical_type(b),
    ensures
        a == b,
{
    reveal_strlit("bigint");
    reveal_strlit("bytea(");
    reveal_strlit(")");
    let x = canonical_type(a);
    let y = canonical_type(b);
    match (a, b) {
        (ColType::FixedBytes(m), ColType::FixedBytes(n)) => {
            let dm = decimal(m as nat);
            let dn = decimal(n as nat);
            assert(x.subrange(6, x.len() - 1) =~= dm);
            assert(y.subrange(6, y.len() - 1) =~= dn);
            decimal_tells_numbers_apart(m as nat, n as nat);
        },
        (ColType::BigInt, ColType::FixedBytes(_)) => {
            assert(x[1] == 'i' && y[1] == 'y');
        },
        (ColType::FixedBytes(_), ColType::BigInt) => {
            assert(x[1] == 'y' && y[1] == 'i');
        },
        _ => {},
    }
}

/// A column's text up to its semicolon.
spec fn column_body(c: ColumnView) -> Seq<char> {
    c.name + seq![':'] + (canonical_type(c.ty) + seq![':'] + (if c.primary_key {
        "pk"@
    } else {
        "col"@
    }))
}

proof fn column_has_its_body(c: ColumnView)
    requires
        identifier(c.name),
    ensures
        canonical_column(c) == "col="@ + (column_body(c) + seq![';']),
        forall|i: int| 0 <= i < column_body(c).len() ==> #[trigger] column_body(c)[i] != ';',
{
    reveal_strlit("col=");
    reveal_strlit(":");
    reveal_strlit(";");
    reveal_strlit("pk");
    reveal_strlit("col");
    types_are_plain(c.ty);
    let key = if c.primary_key {
        "pk"@
    } else {
        "col"@
    };
    assert(canonical_column(c) =~= "col="@ + (column_body(c) + seq![';']));
    let b = column_body(c);
    let t = canonical_type(c.ty);
    let n = c.name.len() as int;
    assert forall|i: int| 0 <= i < b.len() implies #[trigger] b[i] != ';' by {
        if i < n {
            assert(b[i] == c.name[i]);
        } else if n < i <= n + t.len() {
            assert(b[i] == t[i - n - 1]);
        } else if i > n + 1 + t.len() {
            assert(b[i] == key[i - n - t.len() - 2]);
        }
    }
}

proof fn bodies_are_told_apart(a: ColumnView, b: ColumnView)
    requires
        identifier(a.name),
        identifier(b.name),
        column_body(a) == column_body(b),
    ensures
        a.name == b.name,
        a.ty == b.ty,
        a.primary_key == b.primary_key,
{
    reveal_strlit("pk");
    reveal_strlit("col");
    types_are_plain(a.ty);
    types_are_plain(b.ty);
    let ka = if a.primary_key {
        "pk"@
    } else {
        "col"@
    };
    let kb = if b.primary_key {
        "pk"@
    } else {
        "col"@
    };
    let ra = canonical_type(a.ty) + seq![':'] + ka;
    let rb = canonical_type(b.ty) + seq![':'] + kb;
    split_at_separator(a.name, b.name, ':', ra, rb);
    split_at_separator(canonical_type(a.ty), canonical_type(b.ty), ':', ka, kb);
    types_are_told_apart(a.ty, b.ty);
    assert(ka.len() == kb.len());
}

/// The first column's text stands in front.
proof fn first_column_in_front(columns: Seq<ColumnView>, n: int)
    requires
        0 < n <= columns.len(),
    ensures
        canonical_columns(columns, n) == canonical_column(columns[0]) + canonical_columns(
            columns.drop_first(),
            n - 1,
        ),
    decreases n,
{
    if n > 1 {
        first_column_in_front(columns, n - 1);
        let first = canonical_column(columns[0]);
        let middle = canonical_columns(columns.drop_first(), n - 2);
        let last = canonical_column(columns[n - 1]);
        assert(columns.drop_first()[n - 2] == columns[n - 1]);
        assert(first + middle + last =~= first + (middle + last));
    } else {
        assert(canonical_columns(columns, 0) =~= Seq::<char>::empty());
        assert(canonical_columns(columns.drop_first(), 0) =~= Seq::<char>::empty());
        assert(canonical_columns(columns, 1) =~= canonical_column(columns[0]) + Seq::empty());
    }
}

/// The same column but for its index.
spec fn column_alike(a: ColumnView, b: ColumnView) -> bool {
    a.name == b.name && a.ty == b.ty && a.primary_key == b.primary_key
}

/// Two lists of columns with the same text begin alike, and go on with the same
/// text.
#[verifier::spinoff_prover]
#[verifier::rlimit(40)]
proof fn first_columns_are_told_apart(a: Seq<ColumnView>, b: Seq<ColumnView>)
    requires
        a.len() > 0,
        b.len() > 0,
        identifier(a[0].name),
        identifier(b[0].name),
        canonical_columns(a, a.len() as int) == canonical_columns(b, b.len() as int),
    ensures
        column_alike(a[0], b[0]),
        canonical_columns(a.drop_first(), a.len() - 1) == canonical_columns(
            b.drop_first(),
            b.len() - 1,
        ),
{
    reveal_strlit("col=");
    first_column_in_front(a, a.len() as int);
    first_column_in_front(b, b.len() as int);
    column_has_its_body(a[0]);
    column_has_its_body(b[0]);
    let x = canonical_columns(a.drop_first(), a.len() - 1);
    let y = canonical_columns(b.drop_first(), b.len() - 1);
    let s = canonical_columns(a, a.len() as int);
    assert(s.skip(4) =~= column_body(a[0]) + seq![';'] + x);
    assert(s.skip(4) =~= column_body(b[0]) + seq![';'] + y);
    split_at_separator(column_body(a[0]), column_body(b[0]), ';', x, y);
    bodies_are_told_apart(a[0], b[0]);
}

/// Columns have text.
proof fn columns_have_text(columns: Seq<ColumnView>, n: int)
    requires
        0 < n <= columns.len(),
    ensures
        canonical_columns(columns, n).len() > 0,
{
    reveal_strlit("col=");
}

#[verifier::spinoff_prover]
proof fn columns_are_told_apart(a: Seq<ColumnView>, b: Seq<ColumnView>)
    requires
        forall|i: int| 0 <= i < a.len() ==> identifier((#[trigger] a[i]).name),
        forall|i: int| 0 <= i < b.len() ==> identifier((#[trigger] b[i]).name),
        canonical_columns(a, a.len() as int) == canonical_columns(b, b.len() as int),
    ensures
        a.len() == b.len(),
        forall|i: int| 0 <= i < a.len() ==> column_alike(#[trigger] a[i], b[i]),
    decreases a.len(),
{
    if a.len() > 0 {
        columns_have_text(a, a.len() as int);
    }
    if b.len() > 0 {
        columns_have_text(b, b.len() as int);
    }
    if a.len() > 0 && b.len() > 0 {
        first_columns_are_told_apart(a, b);
        let c = a.drop_first();
        let d = b.drop_first();
        columns_are_told_apart(c, d);
        assert forall|i: int| 0 <= i < a.len() implies column_alike(#[trigger] a[i], b[i]) by {
            if i > 0 {
                assert(column_alike(c[i - 1], d[i - 1]));
            }
        }
    }
}

/// The text that is hashed holds every layout input: two sound schemas have the
/// same text exactly when they are the same but for their indices.
#[verifier::spinoff_prover]
pub proof fn canonical_text_is_faithful(a: SchemaView, b: SchemaView)
    requires
        sound_schema(a),
        sound_schema(b),
    ensures
        canonical(a) == canonical(b) <==> alike(a, b),
{
    if alike(a, b) {
        alike_so_far(a, b, a.columns.len() as int);
    }
    if canonical(a) == canonical(b) {
        reveal_strlit("dabqlite-schema-v1;table=");
        reveal_strlit(";");
        let x = canonical_columns(a.columns, a.columns.len() as int);
        let y = canonical_columns(b.columns, b.columns.len() as int);
        let n = "dabqlite-schema-v1;table="@.len() as int;
        assert(canonical(a).skip(n) =~= a.table + seq![';'] + x);
        assert(canonical(b).skip(n) =~= b.table + seq![';'] + y);
        split_at_separator(a.table, b.table, ';', x, y);
        columns_are_told_apart(a.columns, b.columns);
        assert forall|i: int| 0 <= i < a.columns.len() implies #[trigger] a.columns[i] == (
        ColumnView { trigram: a.columns[i].trigram, ..b.columns[i] }) by {
            assert(column_alike(a.columns[i], b.columns[i]));
        }
    }
}

// ---- Operation spaces ----

/// A query that the engine has a path for, under a proper name.
pub open spec fn sound_query(q: QueryView) -> bool {
    &&& identifier(q.name)
    &&& match q.shape {
        QueryShape::SelectByPk => q.kind == QueryKind::One,
        QueryShape::InsertRow => q.kind == QueryKind::Exec,
    }
}

pub open spec fn distinct_queries(queries: Seq<QueryView>) -> bool {
    forall|i: int, j: int|
        0 <= i < j < queries.len() ==> (#[trigger] queries[i]).name != (#[trigger] queries[j]).name
}

spec fn sound_declared(at: Declared) -> bool {
    &&& forall|i: int| 0 <= i < at.queries.len() ==> sound_query(#[trigger] at.queries[i])
    &&& distinct_queries(at.queries)
    &&& match at.pending {
        Some(p) => identifier(p.name) && !has_query(at.queries, p.name),
        None => true,
    }
}

proof fn declarations_keep_soundness(all: Seq<Seq<char>>, n: int, s: SchemaView)
    ensures
        match declare_lines(all, n, s) {
            Ok(at) => sound_declared(at),
            Err(_) => true,
        },
    decreases n,
{
    if n > 0 {
        declarations_keep_soundness(all, n - 1, s);
        if let Ok(at) = declare_lines(all, n - 1, s) {
            if let Ok(next) = declare_line(at, n, all[n - 1], s) {
                assert forall|i: int, j: int|
                    0 <= i < j < next.queries.len() implies (#[trigger] next.queries[i]).name != (
                #[trigger] next.queries[j]).name by {
                    if j == at.queries.len() {
                        assert(at.queries[i].name == next.queries[i].name);
                    }
                }
            }
        }
    }
}

/// Whatever text is accepted as an operation space, it is not empty, every name
/// in it is declared once, and every query is one that the engine can answer.
pub proof fn declared_queries_are_sound(sql: Seq<char>, s: SchemaView)
    ensures
        match queries_of(sql, s) {
            Ok(q) => {
                &&& q.len() > 0
                &&& distinct_queries(q)
                &&& forall|i: int| 0 <= i < q.len() ==> sound_query(#[trigger] q[i])
            },
            Err(_) => true,
        },
{
    declarations_keep_soundness(lines(sql), lines(sql).len() as int, s);
}

proof fn names_reflexive(a: Seq<char>)
    ensures
        name_le(a, a),
    decreases a.len(),
{
    if a.len() > 0 {
        names_reflexive(a.drop_first());
    }
}

/// A name comes before another exactly if it is where they first differ the
/// smaller, or is cut short there.
pub proof fn names_are_ordered_by_their_characters(a: Seq<char>, b: Seq<char>)
    ensures
        name_le(a, b) <==> exists|i: int| #[trigger] parts_at(a, b, i),
    decreases a.len(),
{
    if a.len() == 0 {
        assert(parts_at(a, b, 0));
    } else if b.len() > 0 && a[0] == b[0] {
        let x = a.drop_first();
        let y = b.drop_first();
        names_are_ordered_by_their_characters(x, y);
        if name_le(x, y) {
            let i = choose|i: int| #[trigger] parts_at(x, y, i);
            assert forall|j: int| 0 <= j < i + 1 implies #[trigger] a[j] == b[j] by {
                if j > 0 {
                    assert(x[j - 1] == y[j - 1]);
                }
            }
            assert(parts_at(a, b, i + 1));
        }
        if exists|i: int| #[trigger] parts_at(a, b, i) {
            let i = choose|i: int| #[trigger] parts_at(a, b, i);
            assert forall|j: int| 0 <= j < i - 1 implies #[trigger] x[j] == y[j] by {
                assert(a[j + 1] == b[j + 1]);
            }
            assert(parts_at(x, y, i - 1));
        }
    } else if b.len() > 0 && name_le(a, b) {
        assert(parts_at(a, b, 0));
    } else if b.len() > 0 && exists|i: int| #[trigger] parts_at(a, b, i) {
        let i = choose|i: int| #[trigger] parts_at(a, b, i);
        if i > 0 {
            assert(a[0] == b[0]);
        }
    }
}

/// The two agree in front of place `i`, and there the first ends or has the
/// smaller character.
pub open spec fn parts_at(a: Seq<char>, b: Seq<char>, i: int) -> bool {
    &&& 0 <= i <= a.len()
    &&& i <= b.len()
    &&& forall|j: int| 0 <= j < i ==> #[trigger] a[j] == b[j]
    &&& i == a.len() || (i < b.len() && a[i] < b[i])
}

pub(crate) proof fn names_total(a: Seq<char>, b: Seq<char>)
    ensures
        name_le(a, b) || name_le(b, a),
    decreases a.len(),
{
    if a.len() > 0 && b.len() > 0 && a[0] == b[0] {
        names_total(a.drop_first(), b.drop_first());
    }
}

proof fn names_antisymmetric(a: Seq<char>, b: Seq<char>)
    requires
        name_le(a, b),
        name_le(b, a),
    ensures
        a == b,
    decreases a.len(),
{
    if a.len() > 0 && b.len() > 0 {
        names_antisymmetric(a.drop_first(), b.drop_first());
        assert(a =~= seq![a[0]] + a.drop_first());
        assert(b =~= seq![b[0]] + b.drop_first());
    } else {
        assert(a =~= b);
    }
}

pub(crate) proof fn names_transitive(a: Seq<char>, b: Seq<char>, c: Seq<char>)
    requires
        name_le(a, b),
        name_le(b, c),
    ensures
        name_le(a, c),
    decreases a.len(),
{
    if a.len() > 0 && b.len() > 0 && c.len() > 0 && a[0] == b[0] && b[0] == c[0] {
        names_transitive(a.drop_first(), b.drop_first(), c.drop_first());
    }
}

spec fn rank(q: QueryView) -> int {
    (if q.kind == QueryKind::One {
        0int
    } else {
        2
    }) + (if q.shape == QueryShape::SelectByPk {
        0int
    } else {
        1
    })
}

/// An order of all queries in which names come first.
spec fn query_le(a: QueryView, b: QueryView) -> bool {
    if a.name == b.name {
        rank(a) <= rank(b)
    } else {
        name_le(a.name, b.name)
    }
}

proof fn query_le_is_total()
    ensures
        total_ordering(|a: QueryView, b: QueryView| query_le(a, b)),
{
    assert forall|a: QueryView, b: QueryView| #[trigger]
        query_le(a, b) && #[trigger] query_le(b, a) implies a == b by {
        if a.name != b.name {
            names_antisymmetric(a.name, b.name);
        }
    }
    assert forall|a: QueryView, b: QueryView, c: QueryView| #[trigger]
        query_le(a, b) && #[trigger] query_le(b, c) implies query_le(a, c) by {
        if a.name != b.name && b.name != c.name {
            names_transitive(a.name, b.name, c.name);
            if a.name == c.name {
                names_antisymmetric(a.name, b.name);
            }
        }
    }
    assert forall|a: QueryView, b: QueryView| #[trigger] query_le(a, b) || query_le(b, a) by {
        names_total(a.name, b.name);
    }
}

/// The queries come by name.
pub open spec fn in_name_order(list: Seq<QueryView>) -> bool {
    forall|i: int, j: int|
        0 <= i < j < list.len() ==> name_le(
            (#[trigger] list[i]).name,
            (#[trigger] list[j]).name,
        )
}

proof fn place_is_right(list: Seq<QueryView>, q: QueryView)
    requires
        in_name_order(list),
    ensures
        0 <= place(list, q) <= list.len(),
        forall|i: int| 0 <= i < place(list, q) ==> name_le((#[trigger] list[i]).name, q.name),
        forall|i: int|
            place(list, q) <= i < list.len() ==> name_le(q.name, (#[trigger] list[i]).name),
    decreases list.len(),
{
    if list.len() > 0 {
        let last = list.last();
        if name_le(last.name, q.name) {
            assert forall|i: int| 0 <= i < list.len() implies name_le(
                (#[trigger] list[i]).name,
                q.name,
            ) by {
                if i < list.len() - 1 {
                    names_transitive(list[i].name, last.name, q.name);
                }
            }
        } else {
            let rest = list.drop_last();
            place_is_right(rest, q);
            names_total(last.name, q.name);
            assert forall|i: int| 0 <= i < place(list, q) implies name_le(
                (#[trigger] list[i]).name,
                q.name,
            ) by {
                assert(rest[i] == list[i]);
            }
            assert forall|i: int| place(list, q) <= i < list.len() implies name_le(
                q.name,
                (#[trigger] list[i]).name,
            ) by {
                if i < list.len() - 1 {
                    assert(rest[i] == list[i]);
                }
            }
        }
    }
}

pub(crate) proof fn sorting_sorts(queries: Seq<QueryView>, n: int)
    requires
        0 <= n <= queries.len(),
    ensures
        in_name_order(sorted(queries, n)),
        sorted(queries, n).to_multiset() == queries.take(n).to_multiset(),
    decreases n,
{
    broadcast use vstd::seq_lib::group_to_multiset_ensures;

    if n > 0 {
        sorting_sorts(queries, n - 1);
        let before = sorted(queries, n - 1);
        let q = queries[n - 1];
        let p = place(before, q);
        place_is_right(before, q);
        let after = before.insert(p, q);
        assert forall|i: int, j: int| 0 <= i < j < after.len() implies name_le(
            (#[trigger] after[i]).name,
            (#[trigger] after[j]).name,
        ) by {
            if i != p && j != p {
                let x = if i < p {
                    i
                } else {
                    i - 1
                };
                let y = if j < p {
                    j
                } else {
                    j - 1
                };
                assert(before[x] == after[i] && before[y] == after[j]);
            } else if i == p {
                assert(before[j - 1] == after[j]);
            } else {
                assert(before[i] == after[i]);
            }
        }
        vstd::seq_lib::to_multiset_insert(before, p, q);
        assert(queries.take(n) =~= queries.take(n - 1).push(q));
    } else {
        assert(queries.take(0) =~= Seq::<QueryView>::empty());
    }
}

/// The hash of an operation space is that of its queries, whatever order they
/// were declared in.
pub proof fn declaration_order_does_not_matter(a: Seq<QueryView>, b: Seq<QueryView>)
    requires
        distinct_queries(a),
        a.to_multiset() == b.to_multiset(),
    ensures
        space_text(a) == space_text(b),
        space_hash(a) == space_hash(b),
{
    broadcast use vstd::seq_lib::group_to_multiset_ensures;

    let m = a.len() as int;
    let n = b.len() as int;
    sorting_sorts(a, m);
    sorting_sorts(b, n);
    assert(a.take(m) =~= a);
    assert(b.take(n) =~= b);
    let le = |p: QueryView, q: QueryView| query_le(p, q);
    query_le_is_total();
    let x = sorted(a, m);
    let y = sorted(b, n);
    in_order_by_all(x, a);
    in_order_by_all(y, a);
    lemma_sorted_unique(x, y, le);
}

/// A list in name order, of queries whose names differ, is sorted.
proof fn in_order_by_all(list: Seq<QueryView>, source: Seq<QueryView>)
    requires
        in_name_order(list),
        distinct_queries(source),
        list.to_multiset() == source.to_multiset(),
    ensures
        sorted_by(list, |p: QueryView, q: QueryView| query_le(p, q)),
{
    broadcast use vstd::seq_lib::group_to_multiset_ensures;

    assert forall|i: int, j: int| 0 <= i < j < list.len() implies #[trigger] query_le(
        list[i],
        list[j],
    ) by {
        if list[i].name == list[j].name {
            assert(list.contains(list[i]) && list.contains(list[j]));
            assert(source.to_multiset().count(list[i]) > 0);
            assert(source.to_multiset().count(list[j]) > 0);
            assert(source.contains(list[i]) && source.contains(list[j]));
            let k = choose|k: int| 0 <= k < source.len() && source[k] == list[i];
            let l = choose|l: int| 0 <= l < source.len() && source[l] == list[j];
            if k < l {
                assert(source[k].name != source[l].name);
            } else if l < k {
                assert(source[l].name != source[k].name);
            }
            assert(list[i] == list[j]);
        }
    }
}

} // verus!
