//! What a refused statement is told: the query it was to be, what was found,
//! and the statement that would be accepted.

use crate::codegen::emit::names_text;
use crate::codegen::generating::{behind, holds, in_front, itself};
use crate::codegen::queries::{
    insert_fault, insert_tokens, params_text, query_of, quoted_tokens, select_fault, select_tokens,
    token_list, tokens_of, QueryKind,
};
use crate::codegen::schema::{ColumnView, SchemaView};
use crate::codegen::statements::{
    column_list, insert_statement, parameter_list, select_statement,
};
use crate::codegen::text::{decimal, decimal_spells_its_number, quoted};
use vstd::prelude::*;

verus! {

proof fn columns_are_listed(columns: Seq<ColumnView>, n: int)
    ensures
        names_text(columns, n) == column_list(columns, n),
    decreases n,
{
    if n > 1 {
        columns_are_listed(columns, n - 1);
        assert(names_text(columns, n) =~= column_list(columns, n));
    }
}

proof fn parameters_are_listed(n: int)
    ensures
        params_text(n) == parameter_list(n),
    decreases n,
{
    reveal_strlit("$");
    reveal_strlit("$1");
    reveal_strlit(", ");
    reveal_strlit(", $");
    if n == 1 {
        decimal_spells_its_number(1);
        assert(decimal(1) =~= seq!['1']);
        assert(params_text(1) =~= "$1"@);
    } else if n > 1 {
        parameters_are_listed(n - 1);
        assert(", "@ + "$"@ =~= ", $"@);
        assert(params_text(n) =~= parameter_list(n));
    }
}

proof fn tokens_are_listed(t: Seq<Seq<char>>, n: int, i: int)
    requires
        0 <= i < n,
    ensures
        holds(quoted_tokens(t, n), quoted(t[i])),
    decreases n,
{
    if n == 1 {
        itself(quoted(t[0]));
    } else if i == n - 1 {
        itself(quoted(t[i]));
        behind(quoted_tokens(t, n - 1) + ", "@, quoted(t[i]), quoted(t[i]));
    } else {
        tokens_are_listed(t, n - 1, i);
        in_front(quoted_tokens(t, n - 1), ", "@, quoted(t[i]));
        in_front(quoted_tokens(t, n - 1) + ", "@, quoted(t[n - 1]), quoted(t[i]));
    }
}

/// The four parts of a refusal are in it.
proof fn parts(a: Seq<char>, name: Seq<char>, b: Seq<char>, shown: Seq<char>, c: Seq<char>, t: Seq<
    Seq<char>,
>)
    ensures
        ({
            let msg = a + (quoted(name) + (b + (shown + (c + token_list(t)))));
            &&& holds(msg, quoted(name))
            &&& holds(msg, shown)
            &&& forall|i: int| 0 <= i < t.len() ==> holds(msg, quoted(#[trigger] t[i]))
        }),
{
    let r3 = c + token_list(t);
    let r2 = shown + r3;
    let r1 = b + r2;
    let r0 = quoted(name) + r1;
    itself(quoted(name));
    in_front(quoted(name), r1, quoted(name));
    behind(a, r0, quoted(name));
    itself(shown);
    in_front(shown, r3, shown);
    behind(b, r2, shown);
    behind(quoted(name), r1, shown);
    behind(a, r0, shown);
    assert forall|i: int| 0 <= i < t.len() implies holds(a + r0, quoted(#[trigger] t[i])) by {
        let piece = quoted(t[i]);
        tokens_are_listed(t, t.len() as int, i);
        behind("["@, quoted_tokens(t, t.len() as int), piece);
        in_front("["@ + quoted_tokens(t, t.len() as int), "]"@, piece);
        behind(c, token_list(t), piece);
        behind(shown, r3, piece);
        behind(b, r2, piece);
        behind(quoted(name), r1, piece);
        behind(a, r0, piece);
    }
}

proof fn heads_differ()
    ensures
        "select"@ != "insert"@,
{
    reveal_strlit("select");
    reveal_strlit("insert");
    assert("select"@[0] == 's' && "insert"@[0] == 'i');
}

proof fn select_words()
    ensures
        ": v1 SELECT must be exactly '"@ + "SELECT "@ == ": v1 SELECT must be exactly 'SELECT "@,
        " = $1;"@ + "' (all columns, schema order, primary-key equality); got tokens "@
            == " = $1;' (all columns, schema order, primary-key equality); got tokens "@,
{
    reveal_strlit(": v1 SELECT must be exactly 'SELECT ");
    reveal_strlit(": v1 SELECT must be exactly '");
    reveal_strlit("SELECT ");
    reveal_strlit(" = $1;' (all columns, schema order, primary-key equality); got tokens ");
    reveal_strlit("' (all columns, schema order, primary-key equality); got tokens ");
    reveal_strlit(" = $1;");
}

proof fn insert_words()
    ensures
        ": v1 INSERT must be exactly '"@ + "INSERT INTO "@
            == ": v1 INSERT must be exactly 'INSERT INTO "@,
        ");"@ + "' (all columns, schema order, sequential params); got tokens "@
            == ");' (all columns, schema order, sequential params); got tokens "@,
{
    reveal_strlit(": v1 INSERT must be exactly 'INSERT INTO ");
    reveal_strlit(": v1 INSERT must be exactly '");
    reveal_strlit("INSERT INTO ");
    reveal_strlit(");' (all columns, schema order, sequential params); got tokens ");
    reveal_strlit("' (all columns, schema order, sequential params); got tokens ");
    reveal_strlit(");");
}

proof fn kind_words()
    ensures
        ": SELECT by primary key must be "@ + "':one'"@ == ": SELECT by primary key must be ':one'"@,
        ": INSERT must be "@ + "':exec'"@ == ": INSERT must be ':exec'"@,
{
    reveal_strlit(": SELECT by primary key must be ':one'");
    reveal_strlit(": SELECT by primary key must be ");
    reveal_strlit("':one'");
    reveal_strlit(": INSERT must be ':exec'");
    reveal_strlit(": INSERT must be ");
    reveal_strlit("':exec'");
}

proof fn select_refusal(s: SchemaView, name: Seq<char>, t: Seq<Seq<char>>)
    ensures
        select_fault(s, name, t) == "query "@ + (quoted(name) + (": v1 SELECT must be exactly '"@ + (
        select_statement(s) + ("' (all columns, schema order, primary-key equality); got tokens "@
            + token_list(t))))),
{
    let b = ": v1 SELECT must be exactly '"@;
    let c = "' (all columns, schema order, primary-key equality); got tokens "@;
    select_words();
    columns_are_listed(s.columns, s.columns.len() as int);
    let head = "query "@ + quoted(name);
    let names = column_list(s.columns, s.columns.len() as int);
    let mid = names + " FROM "@ + s.table + " WHERE "@ + s.columns[0].name;
    assert(select_statement(s) =~= "SELECT "@ + mid + " = $1;"@);
    assert(select_fault(s, name, t) =~= head + (b + "SELECT "@) + mid + (" = $1;"@ + c)
        + token_list(t));
}

proof fn insert_refusal(s: SchemaView, name: Seq<char>, t: Seq<Seq<char>>)
    ensures
        insert_fault(s, name, t) == "query "@ + (quoted(name) + (": v1 INSERT must be exactly '"@ + (
        insert_statement(s) + ("' (all columns, schema order, sequential params); got tokens "@
            + token_list(t))))),
{
    let b = ": v1 INSERT must be exactly '"@;
    let c = "' (all columns, schema order, sequential params); got tokens "@;
    let n = s.columns.len() as int;
    insert_words();
    columns_are_listed(s.columns, n);
    parameters_are_listed(n);
    let head = "query "@ + quoted(name);
    let mid = s.table + " ("@ + column_list(s.columns, n) + ") VALUES ("@ + parameter_list(n);
    assert(insert_statement(s) =~= "INSERT INTO "@ + mid + ");"@);
    assert(insert_fault(s, name, t) =~= head + (b + "INSERT INTO "@) + mid + (");"@ + c)
        + token_list(t));
}

/// A statement that sets out to read or to write, and is not the one that is
/// accepted, is refused where it was declared; the error names the query, shows
/// the statement that would be accepted, and every token that was found.
pub proof fn a_refusal_shows_the_statement_to_write(
    line: int,
    name: Seq<char>,
    kind: QueryKind,
    stmt: Seq<char>,
    s: SchemaView,
)
    ensures
        ({
            let t = tokens_of(stmt);
            let shown = if t[0] == "select"@ {
                select_statement(s)
            } else {
                insert_statement(s)
            };
            t.len() > 0 && (t[0] == "select"@ && t != select_tokens(s) || t[0] == "insert"@ && t
                != insert_tokens(s)) ==> {
                &&& query_of(line, name, kind, stmt, s) matches Err(f)
                &&& f.line == line
                &&& holds(f.msg, quoted(name))
                &&& holds(f.msg, shown)
                &&& forall|i: int| 0 <= i < t.len() ==> holds(f.msg, quoted(#[trigger] t[i]))
            }
        }),
{
    let t = tokens_of(stmt);
    heads_differ();
    if t.len() > 0 && t[0] == "select"@ && t != select_tokens(s) {
        select_refusal(s, name, t);
        parts(
            "query "@,
            name,
            ": v1 SELECT must be exactly '"@,
            select_statement(s),
            "' (all columns, schema order, primary-key equality); got tokens "@,
            t,
        );
    } else if t.len() > 0 && t[0] == "insert"@ && t != insert_tokens(s) {
        insert_refusal(s, name, t);
        parts(
            "query "@,
            name,
            ": v1 INSERT must be exactly '"@,
            insert_statement(s),
            "' (all columns, schema order, sequential params); got tokens "@,
            t,
        );
    }
}

/// A read that is not declared to give one row, a write that is not declared to
/// be executed, and a statement of any other sort are refused where they were
/// declared, by name; the error says what the declaration should be, or which
/// word the statement begins with.
pub proof fn a_refusal_names_what_is_wrong(
    line: int,
    name: Seq<char>,
    kind: QueryKind,
    stmt: Seq<char>,
    s: SchemaView,
)
    ensures
        ({
            let t = tokens_of(stmt);
            let reads = t == select_tokens(s);
            let writes = t == insert_tokens(s);
            let other = t.len() == 0 || (t[0] != "select"@ && t[0] != "insert"@);
            let wanted = if reads {
                "':one'"@
            } else if writes {
                "':exec'"@
            } else if t.len() > 0 {
                quoted(t[0])
            } else {
                quoted("<empty>"@)
            };
            reads && kind != QueryKind::One || writes && kind != QueryKind::Exec || other ==> {
                &&& query_of(line, name, kind, stmt, s) matches Err(f)
                &&& f.line == line
                &&& holds(f.msg, quoted(name))
                &&& holds(f.msg, wanted)
            }
        }),
{
    let t = tokens_of(stmt);
    heads_differ();
    kind_words();
    assert(select_tokens(s)[0] == "select"@);
    assert(insert_tokens(s)[0] == "insert"@);
    itself(quoted(name));
    behind("query "@, quoted(name), quoted(name));
    let head = "query "@ + quoted(name);
    if t == select_tokens(s) {
        let lead = ": SELECT by primary key must be "@;
        in_front(head, lead + "':one'"@, quoted(name));
        itself("':one'"@);
        behind(lead, "':one'"@, "':one'"@);
        behind(head, lead + "':one'"@, "':one'"@);
    } else if t == insert_tokens(s) {
        let lead = ": INSERT must be "@;
        in_front(head, lead + "':exec'"@, quoted(name));
        itself("':exec'"@);
        behind(lead, "':exec'"@, "':exec'"@);
        behind(head, lead + "':exec'"@, "':exec'"@);
    } else {
        let word = quoted(
            if t.len() > 0 {
                t[0]
            } else {
                "<empty>"@
            },
        );
        let a = ": unsupported statement "@;
        let b = "; the v1 operation space is SELECT-by-primary-key and INSERT"@;
        in_front(head, a, quoted(name));
        in_front(head + a, word, quoted(name));
        in_front(head + a + word, b, quoted(name));
        itself(word);
        behind(head + a, word, word);
        in_front(head + a + word, b, word);
    }
}

} // verus!
