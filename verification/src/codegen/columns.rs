//! What a schema text says, and what is made of it: every line of code between
//! the table's head and its end is one column, and an error names the line that
//! it is on.

use crate::codegen::formatting::said;
use crate::codegen::laws::{sound_column, sound_schema};
use crate::codegen::schema::{
    bracketed, column, has_column, key_count, line_code, line_comment, lowered_words, modifiers,
    read_line, read_lines, schema_of, without_comma, ColType, ColumnView, Fault, Reading,
    SchemaView,
};
use crate::codegen::text::{index_from, lines, lowered_all, number, trimmed, words};
use vstd::prelude::*;

verus! {

/// One of the words from the third on is this one, in whatever case.
pub open spec fn has_word(raw: Seq<char>, word: Seq<char>) -> bool {
    let w = words(without_comma(line_code(raw)));
    exists|k: int| 2 <= k < w.len() && lowered_all(#[trigger] w[k]) == word
}

/// The column is what the line says: its name and its type are the first two
/// words; it is the key exactly if the line says so; it is never null; its
/// width, and whether it is indexed, stand in the comment.
pub open spec fn says_column(raw: Seq<char>, c: ColumnView) -> bool {
    let w = words(without_comma(line_code(raw)));
    &&& w.len() >= 2
    &&& w[0] == c.name
    &&& match c.ty {
        ColType::BigInt => {
            &&& lowered_all(w[1]) == "bigint"@
            &&& bracketed(line_comment(raw), "@fixed("@) is None
        },
        ColType::FixedBytes(n) => {
            &&& lowered_all(w[1]) == "bytea"@
            &&& bracketed(line_comment(raw), "@fixed("@) matches Some(Some(inner)) && number(
                trimmed(inner),
            ) == Some(n)
        },
    }
    &&& c.primary_key <==> has_word(raw, "primary"@)
    &&& has_word(raw, "not"@)
    &&& match bracketed(line_comment(raw), "@index("@) {
        None => !c.trigram,
        Some(None) => false,
        Some(Some(inner)) => c.trigram && trimmed(inner) == "trigram"@,
    }
}

proof fn modifiers_say(
    line: int,
    name: Seq<char>,
    mods: Seq<Seq<char>>,
    i: int,
    not_null: bool,
    primary_key: bool,
)
    requires
        0 <= i <= mods.len(),
    ensures
        modifiers(line, name, mods, i, not_null, primary_key) matches Ok((n, p)) ==> {
            &&& n <==> not_null || exists|k: int| i <= k < mods.len() && #[trigger] mods[k] == "not"@
            &&& p <==> primary_key || exists|k: int|
                i <= k < mods.len() && #[trigger] mods[k] == "primary"@
        },
    decreases mods.len() - i,
{
    reveal_strlit("not");
    reveal_strlit("null");
    reveal_strlit("primary");
    reveal_strlit("key");
    assert("null"@.len() == 4 && "not"@.len() == 3 && "primary"@.len() == 7 && "key"@.len() == 3);
    assert("key"@[0] == 'k' && "not"@[0] == 'n');
    if i < mods.len() && i + 1 < mods.len() {
        if mods[i] == "not"@ && mods[i + 1] == "null"@ {
            modifiers_say(line, name, mods, i + 2, true, primary_key);
        } else if mods[i] == "primary"@ && mods[i + 1] == "key"@ {
            modifiers_say(line, name, mods, i + 2, not_null, true);
        }
        if let Ok((n, p)) = modifiers(line, name, mods, i, not_null, primary_key) {
            if p && !primary_key && mods[i] != "primary"@ {
                let k = choose|k: int| i + 2 <= k < mods.len() && #[trigger] mods[k] == "primary"@;
                assert(mods[k] == "primary"@);
            }
            if n && !not_null && mods[i] != "not"@ {
                let k = choose|k: int| i + 2 <= k < mods.len() && #[trigger] mods[k] == "not"@;
                assert(mods[k] == "not"@);
            }
        }
    }
}

proof fn column_says(line: int, columns: Seq<ColumnView>, raw: Seq<char>)
    ensures
        column(line, columns, line_code(raw), line_comment(raw)) matches Ok(c) ==> says_column(
            raw,
            c,
        ),
{
    if let Ok(c) = column(line, columns, line_code(raw), line_comment(raw)) {
        let w = words(without_comma(line_code(raw)));
        let mods = lowered_words(w.skip(2));
        modifiers_say(line, w[0], mods, 0, false, false);
        assert forall|k: int| 0 <= k < mods.len() implies #[trigger] mods[k] == lowered_all(
            w[k + 2],
        ) by {}
        if exists|k: int| 0 <= k < mods.len() && #[trigger] mods[k] == "primary"@ {
            let k = choose|k: int| 0 <= k < mods.len() && #[trigger] mods[k] == "primary"@;
            assert(lowered_all(w[k + 2]) == "primary"@);
        }
        if has_word(raw, "primary"@) {
            let k = choose|k: int| 2 <= k < w.len() && lowered_all(#[trigger] w[k]) == "primary"@;
            assert(mods[k - 2] == "primary"@);
        }
        let k = choose|k: int| 0 <= k < mods.len() && #[trigger] mods[k] == "not"@;
        assert(lowered_all(w[k + 2]) == "not"@);
    }
}

/// The lines of code, read so far.
spec fn read_as(at: Reading, list: Seq<Seq<char>>) -> bool {
    match at {
        Reading::Start => list.len() == 0,
        Reading::Columns(s) => heads(list, s) && list.len() == s.columns.len() + 1,
        Reading::Closed(s) => {
            &&& heads(list, s)
            &&& list.len() == s.columns.len() + 2
            &&& line_code(list.last()) == ")"@ || line_code(list.last()) == ");"@
        },
    }
}

/// The first line names the table, and each of the next ones is a column.
pub open spec fn heads(list: Seq<Seq<char>>, s: SchemaView) -> bool {
    &&& list.len() > s.columns.len()
    &&& ({
        let w = words(line_code(list[0]));
        &&& w.len() == 4
        &&& lowered_all(w[0]) == "create"@
        &&& lowered_all(w[1]) == "table"@
        &&& w[2] == s.table
        &&& w[3] == "("@
    })
    &&& forall|i: int| 0 <= i < s.columns.len() ==> says_column(list[i + 1], #[trigger] s.columns[i])
}

proof fn lines_are_read_as(all: Seq<Seq<char>>, n: int)
    requires
        0 <= n <= all.len(),
    ensures
        read_lines(all, n) matches Ok(at) ==> read_as(at, said(all.take(n))),
    decreases n,
{
    if n > 0 {
        lines_are_read_as(all, n - 1);
        let front = all.take(n);
        let raw = all[n - 1];
        assert(front.drop_last() =~= all.take(n - 1));
        assert(front.last() == raw);
        if let Ok(at) = read_lines(all, n - 1) {
            let before = said(all.take(n - 1));
            let list = said(front);
            if line_code(raw).len() > 0 {
                assert(list == before.push(raw));
                if let Reading::Columns(s) = at {
                    column_says(n, s.columns, raw);
                    assert forall|i: int| 0 <= i < s.columns.len() implies says_column(
                        list[i + 1],
                        #[trigger] s.columns[i],
                    ) by {
                        assert(list[i + 1] == before[i + 1]);
                    }
                    if let Ok(Reading::Columns(t)) = read_line(at, n, raw) {
                        assert forall|i: int| 0 <= i < t.columns.len() implies says_column(
                            list[i + 1],
                            #[trigger] t.columns[i],
                        ) by {
                            if i < s.columns.len() {
                                assert(t.columns[i] == s.columns[i]);
                            }
                        }
                    }
                }
            }
        }
    } else {
        assert(all.take(0) =~= Seq::<Seq<char>>::empty());
    }
}

/// Every line of code is one thing, in the order of the text, and nothing else
/// is there: an accepted text is the table's head, one line for each column,
/// and the end; and the schema has what those lines say.
pub proof fn every_line_of_code_is_one_column(sql: Seq<char>)
    ensures
        schema_of(sql) matches Ok(s) ==> {
            let list = said(lines(sql));
            &&& list.len() == s.columns.len() + 2
            &&& heads(list, s)
            &&& line_code(list.last()) == ")"@ || line_code(list.last()) == ");"@
        },
{
    let all = lines(sql);
    lines_are_read_as(all, all.len() as int);
    assert(all.take(all.len() as int) =~= all);
}

// ---- Errors ----

proof fn reading_stops(all: Seq<Seq<char>>, n: int)
    requires
        0 <= n <= all.len(),
    ensures
        read_lines(all, n) matches Err(f) ==> {
            &&& 1 <= f.line <= n
            &&& read_lines(all, f.line - 1) is Ok
            &&& read_lines(all, f.line) == read_lines(all, n)
        },
    decreases n,
{
    if n > 0 {
        reading_stops(all, n - 1);
        if let Ok(at) = read_lines(all, n - 1) {
            line_errors(at, n, all[n - 1]);
        }
    }
}

proof fn line_errors(at: Reading, n: int, raw: Seq<char>)
    ensures
        read_line(at, n, raw) matches Err(f) ==> f.line == n,
{
    if let Reading::Columns(s) = at {
        let w = words(without_comma(line_code(raw)));
        modifier_errors(n, w[0], lowered_words(w.skip(2)), 0, false, false);
    }
}

proof fn modifier_errors(
    line: int,
    name: Seq<char>,
    mods: Seq<Seq<char>>,
    i: int,
    not_null: bool,
    primary_key: bool,
)
    ensures
        modifiers(line, name, mods, i, not_null, primary_key) matches Err(f) ==> f.line == line,
    decreases mods.len() - i,
{
    if i + 1 < mods.len() {
        modifier_errors(line, name, mods, i + 2, true, primary_key);
        modifier_errors(line, name, mods, i + 2, not_null, true);
    }
}

/// An error is about a line of the text, or about the whole of it. One about a
/// line comes of that line: everything in front of it can be read, and nothing
/// behind it matters. Any text that has the same lines up to there is refused
/// with the same error.
pub proof fn an_error_names_its_line(sql: Seq<char>, other: Seq<char>)
    ensures
        schema_of(sql) matches Err(f) ==> {
            let all = lines(sql);
            let b = lines(other);
            &&& 0 <= f.line <= all.len()
            &&& f.line == 0 ==> read_lines(all, all.len() as int) is Ok
            &&& f.line > 0 ==> read_lines(all, f.line - 1) is Ok && read_lines(all, f.line) is Err
            &&& f.line > 0 && b.len() >= f.line && b.take(f.line) == all.take(f.line)
                ==> schema_of(other) == schema_of(sql)
        },
{
    let all = lines(sql);
    let b = lines(other);
    let n = all.len() as int;
    reading_stops(all, n);
    if let Err(f) = schema_of(sql) {
        if f.line > 0 && b.len() >= f.line && b.take(f.line) == all.take(f.line) {
            same_front(all, b, f.line);
            stopped_stays(b, f.line, b.len() as int);
        }
    }
}

proof fn same_front(a: Seq<Seq<char>>, b: Seq<Seq<char>>, n: int)
    requires
        0 <= n <= a.len(),
        n <= b.len(),
        a.take(n) == b.take(n),
    ensures
        read_lines(a, n) == read_lines(b, n),
    decreases n,
{
    if n > 0 {
        assert(a.take(n - 1) =~= a.take(n).take(n - 1));
        assert(b.take(n - 1) =~= b.take(n).take(n - 1));
        assert(a.take(n)[n - 1] == a[n - 1] && b.take(n)[n - 1] == b[n - 1]);
        same_front(a, b, n - 1);
    }
}

proof fn stopped_stays(all: Seq<Seq<char>>, m: int, n: int)
    requires
        0 <= m <= n,
        read_lines(all, m) is Err,
    ensures
        read_lines(all, n) == read_lines(all, m),
    decreases n - m,
{
    if m < n {
        stopped_stays(all, m, n - 1);
    }
}

// ---- What is accepted ----

/// The modifiers from the `i`th on are `NOT NULL` and `PRIMARY KEY`, in any
/// order.
pub open spec fn in_pairs(mods: Seq<Seq<char>>, i: int) -> bool
    decreases mods.len() - i,
{
    if i >= mods.len() {
        true
    } else {
        &&& i + 1 < mods.len()
        &&& (mods[i] == "not"@ && mods[i + 1] == "null"@) || (mods[i] == "primary"@ && mods[i + 1]
            == "key"@)
        &&& in_pairs(mods, i + 2)
    }
}

/// The line says this column, and nothing besides: no other modifier, and no
/// other annotation.
pub open spec fn says_just(raw: Seq<char>, c: ColumnView) -> bool {
    let w = words(without_comma(line_code(raw)));
    &&& says_column(raw, c)
    &&& in_pairs(lowered_words(w.skip(2)), 0)
    &&& c.ty is BigInt ==> !line_comment(raw).contains('@')
    &&& line_code(raw).len() > 0
    &&& line_code(raw) != ")"@
    &&& line_code(raw) != ");"@
}

proof fn pairs_are_read(
    line: int,
    name: Seq<char>,
    mods: Seq<Seq<char>>,
    i: int,
    not_null: bool,
    primary_key: bool,
)
    requires
        in_pairs(mods, i),
    ensures
        modifiers(line, name, mods, i, not_null, primary_key) is Ok,
    decreases mods.len() - i,
{
    if i < mods.len() {
        pairs_are_read(line, name, mods, i + 2, true, primary_key);
        pairs_are_read(line, name, mods, i + 2, not_null, true);
    }
}

proof fn no_sign(s: Seq<char>, from: int)
    requires
        !s.contains('@'),
        0 <= from,
    ensures
        index_from(s, '@', from) is None,
    decreases s.len() - from,
{
    if from < s.len() {
        assert(s[from] != '@');
        no_sign(s, from + 1);
    }
}

proof fn column_is_accepted(line: int, columns: Seq<ColumnView>, raw: Seq<char>, c: ColumnView)
    requires
        says_just(raw, c),
        sound_column(c),
        !has_column(columns, c.name),
    ensures
        column(line, columns, line_code(raw), line_comment(raw)) == Ok::<ColumnView, Fault>(c),
{
    let w = words(without_comma(line_code(raw)));
    let mods = lowered_words(w.skip(2));
    pairs_are_read(line, w[0], mods, 0, false, false);
    modifiers_say(line, w[0], mods, 0, false, false);
    if c.ty is BigInt {
        no_sign(line_comment(raw), 0);
    }
    assert forall|k: int| 0 <= k < mods.len() implies #[trigger] mods[k] == lowered_all(
        w[k + 2],
    ) by {}
    let k = choose|k: int| 2 <= k < w.len() && lowered_all(#[trigger] w[k]) == "not"@;
    assert(mods[k - 2] == "not"@);
    if c.primary_key {
        let k = choose|k: int| 2 <= k < w.len() && lowered_all(#[trigger] w[k]) == "primary"@;
        assert(mods[k - 2] == "primary"@);
    }
    if exists|k: int| 0 <= k < mods.len() && #[trigger] mods[k] == "primary"@ {
        let k = choose|k: int| 0 <= k < mods.len() && #[trigger] mods[k] == "primary"@;
        assert(lowered_all(w[k + 2]) == "primary"@);
    }
    reveal_strlit("bigint");
    reveal_strlit("bytea");
    assert("bigint"@.len() == 6 && "bytea"@.len() == 5);
}

/// Where reading stands when it has seen `m` lines of code.
spec fn standing(s: SchemaView, m: int) -> Reading {
    if m == 0 {
        Reading::Start
    } else if m <= s.columns.len() + 1 {
        Reading::Columns(SchemaView { columns: s.columns.take(m - 1), ..s })
    } else {
        Reading::Closed(s)
    }
}

/// The lines of code say this schema, and nothing besides.
pub open spec fn says_schema(list: Seq<Seq<char>>, s: SchemaView) -> bool {
    &&& list.len() == s.columns.len() + 2
    &&& heads(list, s)
    &&& forall|i: int| 0 <= i < s.columns.len() ==> says_just(list[i + 1], #[trigger] s.columns[i])
    &&& line_code(list.last()) == ")"@ || line_code(list.last()) == ");"@
}

#[verifier::spinoff_prover]
proof fn said_is_read(all: Seq<Seq<char>>, n: int, s: SchemaView)
    requires
        0 <= n <= all.len(),
        sound_schema(s),
        says_schema(said(all), s),
    ensures
        ({
            let m = said(all.take(n)).len() as int;
            &&& m <= said(all).len()
            &&& said(all.take(n)) == said(all).take(m)
            &&& read_lines(all, n) == Ok::<Reading, Fault>(standing(s, m))
        }),
    decreases n,
{
    let whole = said(all);
    said_front(all, n);
    let m = said(all.take(n)).len() as int;
    if n > 0 {
        said_is_read(all, n - 1, s);
        let front = all.take(n);
        let raw = all[n - 1];
        assert(front.drop_last() =~= all.take(n - 1));
        assert(front.last() == raw);
        let k = said(all.take(n - 1)).len() as int;
        if line_code(raw).len() > 0 {
            assert(said(front) == said(all.take(n - 1)).push(raw));
            assert(m == k + 1);
            assert(said(front)[k] == raw);
            assert(whole.take(m)[k] == raw);
            assert(whole[k] == raw);
            if k == 0 {
                assert(s.columns.take(0) =~= Seq::<ColumnView>::empty());
                assert(read_line(Reading::Start, n, raw) == Ok::<Reading, Fault>(standing(s, 1)));
            } else if k <= s.columns.len() {
                let c = s.columns[k - 1];
                let before = s.columns.take(k - 1);
                assert(says_just(whole[k - 1 + 1], c));
                assert(sound_column(c));
                assert(!has_column(before, c.name)) by {
                    if has_column(before, c.name) {
                        let i = choose|i: int|
                            0 <= i < before.len() && (#[trigger] before[i]).name == c.name;
                        assert(s.columns[i].name != s.columns[k - 1].name);
                    }
                }
                column_is_accepted(n, before, raw, c);
                assert(s.columns.take(k) =~= before.push(c));
            } else {
                assert(s.columns.take(k - 1) =~= s.columns);
                assert(raw == whole.last());
            }
        }
    } else {
        assert(all.take(0) =~= Seq::<Seq<char>>::empty());
        assert(whole.take(0) =~= Seq::<Seq<char>>::empty());
    }
}

/// The code of the first lines is the first code.
proof fn said_front(all: Seq<Seq<char>>, n: int)
    requires
        0 <= n <= all.len(),
    ensures
        said(all.take(n)).len() <= said(all).len(),
        said(all.take(n)) == said(all).take(said(all.take(n)).len() as int),
    decreases all.len() - n,
{
    if n == all.len() {
        assert(all.take(n) =~= all);
        assert(said(all).take(said(all).len() as int) =~= said(all));
    } else {
        said_front(all, n + 1);
        let next = all.take(n + 1);
        assert(next.drop_last() =~= all.take(n));
        let m = said(all.take(n)).len() as int;
        assert(said(all.take(n)) =~= said(next).take(m));
        assert(said(next).take(m) =~= said(all).take(m));
    }
}

/// A text that says a sound schema, and nothing besides, is accepted as that
/// schema, however it is laid out.
pub proof fn what_says_a_schema_is_accepted(sql: Seq<char>, s: SchemaView)
    requires
        sound_schema(s),
        says_schema(said(lines(sql)), s),
    ensures
        schema_of(sql) == Ok::<SchemaView, Fault>(s),
{
    let all = lines(sql);
    let n = s.columns.len() as int;
    said_is_read(all, all.len() as int, s);
    assert(all.take(all.len() as int) =~= all);
    one_key(s.columns, n);
}

proof fn one_key(columns: Seq<ColumnView>, n: int)
    requires
        0 <= n <= columns.len(),
        forall|i: int|
            0 <= i < columns.len() ==> ((#[trigger] columns[i]).primary_key <==> i == 0),
    ensures
        key_count(columns, n) == if n > 0 {
            1nat
        } else {
            0
        },
    decreases n,
{
    if n > 0 {
        one_key(columns, n - 1);
    }
}

} // verus!
