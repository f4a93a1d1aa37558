//! Declared queries: the complete, finite operation space.

use crate::codegen::emit::{field_type, field_type_of, fnv, fnv1a64, names_text, push_names};
use crate::codegen::schema::{
    cat2, cat3, cat5, columns_view, err, fault, quote_chars, Column, ColumnView, Fault, ParseError,
    Schema, SchemaView,
};
use crate::codegen::text::{
    chars_of, copy_of, decimal, digit, find, found, hex, identifier, is_ident, is_white_space,
    lines, lower, lower_case, lowered_all, push_decimal, push_hex, quote, quoted, same, spells,
    split_lines, split_words, string_of, texts, trim, trimmed, upper_case, white_space, words,
};
use vstd::prelude::*;
use vstd::slice::slice_subrange;
use vstd::string::*;
use vstd::utf8::encode_utf8;

verus! {

/// What a query answers with.
#[derive(Debug, Clone, Copy, PartialEq, Eq, Structural)]
pub enum QueryKind {
    One,
    Exec,
}

/// The statement shapes there are.
#[derive(Debug, Clone, Copy, PartialEq, Eq, Structural)]
pub enum QueryShape {
    SelectByPk,
    InsertRow,
}

#[derive(Debug, Clone, PartialEq, Eq)]
pub struct Query {
    pub name: String,
    pub kind: QueryKind,
    pub shape: QueryShape,
}

/// A query, its name as characters.
#[verifier::ext_equal]
pub struct QueryView {
    pub name: Seq<char>,
    pub kind: QueryKind,
    pub shape: QueryShape,
}

impl View for Query {
    type V = QueryView;

    open spec fn view(&self) -> QueryView {
        QueryView { name: self.name@, kind: self.kind, shape: self.shape }
    }
}

pub open spec fn queries_view(queries: Seq<Query>) -> Seq<QueryView> {
    queries.map_values(|q: Query| q@)
}

// ---- Tokens ----

/// A character that words of a statement are made of.
pub open spec fn token_char(c: char) -> bool {
    lower_case(c) || upper_case(c) || digit(c) || c == '_' || c == '$'
}

fn is_token_char(c: char) -> (yes: bool)
    ensures
        yes == token_char(c),
{
    ('a' <= c && c <= 'z') || ('A' <= c && c <= 'Z') || ('0' <= c && c <= '9') || c == '_' || c
        == '$'
}

pub open spec fn token_len(s: Seq<char>) -> int
    decreases s.len(),
{
    if s.len() == 0 || !token_char(s[0]) {
        0
    } else {
        1 + token_len(s.drop_first())
    }
}

/// A statement's tokens: its words, in lower case, and every other character
/// that is not white space by itself.
pub open spec fn tokens_of(s: Seq<char>) -> Seq<Seq<char>>
    decreases s.len(),
{
    if s.len() == 0 {
        Seq::empty()
    } else if token_char(s[0]) {
        let n = token_len(s);
        if 0 < n <= s.len() {
            seq![lowered_all(s.take(n))] + tokens_of(s.skip(n))
        } else {
            Seq::empty()
        }
    } else if white_space(s[0]) {
        tokens_of(s.drop_first())
    } else {
        seq![seq![s[0]]] + tokens_of(s.drop_first())
    }
}

fn sql_tokens(v: &[char]) -> (out: Vec<Vec<char>>)
    ensures
        texts(out@) == tokens_of(v@),
{
    let mut out: Vec<Vec<char>> = Vec::new();
    let mut at: usize = 0;
    assert(v@.skip(0) =~= v@);
    assert(texts(out@) + tokens_of(v@) =~= tokens_of(v@));
    while at < v.len()
        invariant
            at <= v@.len(),
            texts(out@) + tokens_of(v@.skip(at as int)) == tokens_of(v@),
        decreases v@.len() - at,
    {
        let ghost rest = v@.skip(at as int);
        let ghost before = texts(out@);
        let c: char = v[at];
        if is_token_char(c) {
            let mut end: usize = at;
            while end < v.len() && is_token_char(v[end])
                invariant
                    at <= end <= v@.len(),
                    rest == v@.skip(at as int),
                    token_len(rest) == (end - at) + token_len(v@.skip(end as int)),
                decreases v@.len() - end,
            {
                assert(v@.skip(end as int).drop_first() =~= v@.skip(end + 1));
                end = end + 1;
            }
            out.push(lower(slice_subrange(v, at, end)));
            proof {
                let n = token_len(rest);
                assert(n == end - at);
                let word = lowered_all(rest.take(n));
                assert(v@.subrange(at as int, end as int) =~= rest.take(n));
                assert(rest.skip(n) =~= v@.skip(end as int));
                assert(texts(out@) =~= before + seq![word]);
                assert(before + seq![word] + tokens_of(v@.skip(end as int)) =~= before + (
                seq![word] + tokens_of(v@.skip(end as int))));
            }
            at = end;
        } else {
            assert(rest.drop_first() =~= v@.skip(at + 1));
            if !is_white_space(c) {
                let mut one: Vec<char> = Vec::new();
                one.push(c);
                out.push(one);
                proof {
                    assert(one@ =~= seq![c]);
                    assert(texts(out@) =~= before + seq![seq![c]]);
                    assert(before + seq![seq![c]] + tokens_of(v@.skip(at + 1)) =~= before + (
                    seq![seq![c]] + tokens_of(v@.skip(at + 1))));
                }
            }
            at = at + 1;
        }
    }
    assert(tokens_of(v@.skip(at as int)) =~= Seq::empty());
    assert(texts(out@) + tokens_of(v@.skip(at as int)) =~= texts(out@));
    out
}

// ---- Statements ----

/// The first `n` columns' names with commas in between, as tokens.
pub open spec fn name_tokens(columns: Seq<ColumnView>, n: int) -> Seq<Seq<char>>
    decreases n,
{
    if n <= 0 {
        Seq::empty()
    } else if n == 1 {
        seq![columns[0].name]
    } else {
        name_tokens(columns, n - 1).push(","@).push(columns[n - 1].name)
    }
}

/// `$1, $2, ..` up to `$n`, as tokens.
pub open spec fn param_tokens(n: int) -> Seq<Seq<char>>
    decreases n,
{
    if n <= 0 {
        Seq::empty()
    } else if n == 1 {
        seq![param(1)]
    } else {
        param_tokens(n - 1).push(","@).push(param(n))
    }
}

pub open spec fn param(n: int) -> Seq<char> {
    "$"@ + decimal(n as nat)
}

/// The one `SELECT` that is accepted: all columns, schema order, primary-key
/// equality.
pub open spec fn select_tokens(s: SchemaView) -> Seq<Seq<char>> {
    seq!["select"@] + name_tokens(s.columns, s.columns.len() as int) + seq![
        "from"@,
        s.table,
        "where"@,
        s.columns[0].name,
        "="@,
        "$1"@,
        ";"@,
    ]
}

/// The one `INSERT` that is accepted: all columns, schema order, sequential
/// parameters.
pub open spec fn insert_tokens(s: SchemaView) -> Seq<Seq<char>> {
    let n = s.columns.len() as int;
    seq!["insert"@, "into"@, s.table, "("@] + name_tokens(s.columns, n) + seq![
        ")"@,
        "values"@,
        "("@,
    ] + param_tokens(n) + seq![")"@, ";"@]
}

/// `$1, $2, ..` up to `$n`, as text.
pub open spec fn params_text(n: int) -> Seq<char>
    decreases n,
{
    if n <= 0 {
        Seq::empty()
    } else if n == 1 {
        param(1)
    } else {
        params_text(n - 1) + ", "@ + param(n)
    }
}

/// The first `n` tokens quoted, with commas in between.
pub open spec fn quoted_tokens(t: Seq<Seq<char>>, n: int) -> Seq<char>
    decreases n,
{
    if n <= 0 {
        Seq::empty()
    } else if n == 1 {
        quoted(t[0])
    } else {
        quoted_tokens(t, n - 1) + ", "@ + quoted(t[n - 1])
    }
}

/// A list of tokens, as an error shows it.
pub open spec fn token_list(t: Seq<Seq<char>>) -> Seq<char> {
    "["@ + quoted_tokens(t, t.len() as int) + "]"@
}

pub open spec fn select_fault(s: SchemaView, name: Seq<char>, t: Seq<Seq<char>>) -> Seq<char> {
    "query "@ + quoted(name) + ": v1 SELECT must be exactly 'SELECT "@ + names_text(
        s.columns,
        s.columns.len() as int,
    ) + " FROM "@ + s.table + " WHERE "@ + s.columns[0].name
        + " = $1;' (all columns, schema order, primary-key equality); got tokens "@ + token_list(t)
}

pub open spec fn insert_fault(s: SchemaView, name: Seq<char>, t: Seq<Seq<char>>) -> Seq<char> {
    "query "@ + quoted(name) + ": v1 INSERT must be exactly 'INSERT INTO "@ + s.table + " ("@
        + names_text(s.columns, s.columns.len() as int) + ") VALUES ("@ + params_text(
        s.columns.len() as int,
    ) + ");' (all columns, schema order, sequential params); got tokens "@ + token_list(t)
}

/// What a declared statement is.
pub open spec fn query_of(
    line: int,
    name: Seq<char>,
    kind: QueryKind,
    stmt: Seq<char>,
    s: SchemaView,
) -> Result<QueryView, Fault> {
    let t = tokens_of(stmt);
    if t.len() > 0 && t[0] == "select"@ {
        if t != select_tokens(s) {
            fault(line, select_fault(s, name, t))
        } else if kind != QueryKind::One {
            fault(line, "query "@ + quoted(name) + ": SELECT by primary key must be ':one'"@)
        } else {
            Ok(QueryView { name, kind, shape: QueryShape::SelectByPk })
        }
    } else if t.len() > 0 && t[0] == "insert"@ {
        if t != insert_tokens(s) {
            fault(line, insert_fault(s, name, t))
        } else if kind != QueryKind::Exec {
            fault(line, "query "@ + quoted(name) + ": INSERT must be ':exec'"@)
        } else {
            Ok(QueryView { name, kind, shape: QueryShape::InsertRow })
        }
    } else {
        fault(
            line,
            "query "@ + quoted(name) + ": unsupported statement "@ + quoted(
                if t.len() > 0 {
                    t[0]
                } else {
                    "<empty>"@
                },
            ) + "; the v1 operation space is SELECT-by-primary-key and INSERT"@,
        )
    }
}

fn push_word(out: &mut Vec<Vec<char>>, word: &str)
    ensures
        texts(final(out)@) == texts(old(out)@).push(word@),
{
    out.push(chars_of(word));
    assert(texts(out@) =~= texts(old(out)@).push(word@));
}

fn push_name_tokens(out: &mut Vec<Vec<char>>, columns: &Vec<Column>)
    ensures
        texts(final(out)@) == texts(old(out)@) + name_tokens(
            columns_view(columns@),
            columns@.len() as int,
        ),
{
    let ghost cs = columns_view(columns@);
    let mut i: usize = 0;
    assert(texts(out@) =~= texts(old(out)@) + name_tokens(cs, 0));
    while i < columns.len()
        invariant
            cs == columns_view(columns@),
            i <= cs.len(),
            texts(out@) == texts(old(out)@) + name_tokens(cs, i as int),
        decreases cs.len() - i,
    {
        assert(cs[i as int] == columns@[i as int]@);
        if i > 0 {
            push_word(out, ",");
        }
        push_word(out, columns[i].name.as_str());
        assert(texts(out@) =~= texts(old(out)@) + name_tokens(cs, i + 1));
        i = i + 1;
    }
}

fn param_word(n: usize) -> (p: String)
    ensures
        p@ == param(n as int),
{
    let mut p = String::new();
    p.append("$");
    push_decimal(&mut p, n);
    assert(p@ =~= param(n as int));
    p
}

fn push_param_tokens(out: &mut Vec<Vec<char>>, n: usize)
    ensures
        texts(final(out)@) == texts(old(out)@) + param_tokens(n as int),
{
    let mut i: usize = 0;
    assert(texts(out@) =~= texts(old(out)@) + param_tokens(0));
    while i < n
        invariant
            i <= n,
            texts(out@) == texts(old(out)@) + param_tokens(i as int),
        decreases n - i,
    {
        if i > 0 {
            push_word(out, ",");
        }
        push_word(out, param_word(i + 1).as_str());
        assert(texts(out@) =~= texts(old(out)@) + param_tokens(i + 1));
        i = i + 1;
    }
}

fn push_params(o: &mut String, n: usize)
    ensures
        final(o)@ == old(o)@ + params_text(n as int),
{
    let mut i: usize = 0;
    assert(o@ =~= old(o)@ + params_text(0));
    while i < n
        invariant
            i <= n,
            o@ == old(o)@ + params_text(i as int),
        decreases n - i,
    {
        if i > 0 {
            o.append(", ");
        }
        o.append(param_word(i + 1).as_str());
        assert(o@ =~= old(o)@ + params_text(i + 1));
        i = i + 1;
    }
}

fn push_token_list(o: &mut String, t: &Vec<Vec<char>>)
    ensures
        final(o)@ == old(o)@ + token_list(texts(t@)),
{
    let ghost ts = texts(t@);
    o.append("[");
    let ghost head = o@;
    let mut i: usize = 0;
    assert(o@ =~= head + quoted_tokens(ts, 0));
    while i < t.len()
        invariant
            ts == texts(t@),
            i <= ts.len(),
            o@ == head + quoted_tokens(ts, i as int),
        decreases ts.len() - i,
    {
        assert(ts[i as int] == t@[i as int]@);
        if i > 0 {
            o.append(", ");
        }
        o.append(quote_chars(t[i].as_slice()).as_str());
        assert(o@ =~= head + quoted_tokens(ts, i + 1));
        i = i + 1;
    }
    o.append("]");
    assert(o@ =~= old(o)@ + token_list(ts));
}

fn same_tokens(a: &Vec<Vec<char>>, b: &Vec<Vec<char>>) -> (yes: bool)
    ensures
        yes == (texts(a@) == texts(b@)),
{
    let ghost ta = texts(a@);
    let ghost tb = texts(b@);
    if a.len() != b.len() {
        assert(ta.len() != tb.len());
        return false;
    }
    let mut i: usize = 0;
    while i < a.len()
        invariant
            i <= a@.len() == b@.len(),
            ta == texts(a@),
            tb == texts(b@),
            forall|j: int| 0 <= j < i ==> #[trigger] ta[j] == tb[j],
        decreases a@.len() - i,
    {
        assert(ta[i as int] == a@[i as int]@ && tb[i as int] == b@[i as int]@);
        if !same(a[i].as_slice(), b[i].as_slice()) {
            return false;
        }
        i = i + 1;
    }
    assert(ta =~= tb);
    true
}

fn expected_select(schema: &Schema) -> (out: Vec<Vec<char>>)
    requires
        schema.columns@.len() > 0,
    ensures
        texts(out@) == select_tokens(schema@),
{
    let mut out: Vec<Vec<char>> = Vec::new();
    push_word(&mut out, "select");
    push_name_tokens(&mut out, &schema.columns);
    assert(schema@.columns[0] == schema.columns@[0]@);
    push_word(&mut out, "from");
    push_word(&mut out, schema.table.as_str());
    push_word(&mut out, "where");
    push_word(&mut out, schema.columns[0].name.as_str());
    push_word(&mut out, "=");
    push_word(&mut out, "$1");
    push_word(&mut out, ";");
    assert(texts(out@) =~= select_tokens(schema@));
    out
}

fn expected_insert(schema: &Schema) -> (out: Vec<Vec<char>>)
    ensures
        texts(out@) == insert_tokens(schema@),
{
    let mut out: Vec<Vec<char>> = Vec::new();
    push_word(&mut out, "insert");
    push_word(&mut out, "into");
    push_word(&mut out, schema.table.as_str());
    push_word(&mut out, "(");
    assert(texts(out@) =~= seq!["insert"@, "into"@, schema@.table, "("@]);
    push_name_tokens(&mut out, &schema.columns);
    push_word(&mut out, ")");
    push_word(&mut out, "values");
    push_word(&mut out, "(");
    push_param_tokens(&mut out, schema.columns.len());
    push_word(&mut out, ")");
    push_word(&mut out, ";");
    assert(texts(out@) =~= insert_tokens(schema@));
    out
}

fn select_error(schema: &Schema, name: &[char], t: &Vec<Vec<char>>) -> (msg: String)
    requires
        schema.columns@.len() > 0,
    ensures
        msg@ == select_fault(schema@, name@, texts(t@)),
{
    let mut msg = cat3(
        "query ",
        quote_chars(name).as_str(),
        ": v1 SELECT must be exactly 'SELECT ",
    );
    push_names(&mut msg, &schema.columns, Ghost(schema@.columns));
    msg.append(" FROM ");
    msg.append(schema.table.as_str());
    msg.append(" WHERE ");
    assert(schema@.columns[0] == schema.columns@[0]@);
    msg.append(schema.columns[0].name.as_str());
    msg.append(" = $1;' (all columns, schema order, primary-key equality); got tokens ");
    push_token_list(&mut msg, t);
    msg
}

fn insert_error(schema: &Schema, name: &[char], t: &Vec<Vec<char>>) -> (msg: String)
    ensures
        msg@ == insert_fault(schema@, name@, texts(t@)),
{
    let mut msg = cat5(
        "query ",
        quote_chars(name).as_str(),
        ": v1 INSERT must be exactly 'INSERT INTO ",
        schema.table.as_str(),
        " (",
    );
    push_names(&mut msg, &schema.columns, Ghost(schema@.columns));
    msg.append(") VALUES (");
    push_params(&mut msg, schema.columns.len());
    msg.append(");' (all columns, schema order, sequential params); got tokens ");
    push_token_list(&mut msg, t);
    msg
}

#[verifier::rlimit(40)]
fn validate_query(line: usize, name: &[char], kind: QueryKind, stmt: &[char], schema: &Schema) -> (res:
    Result<Query, ParseError>)
    requires
        schema.columns@.len() > 0,
    ensures
        match res {
            Ok(q) => query_of(line as int, name@, kind, stmt@, schema@) == Ok::<QueryView, Fault>(
                q@,
            ),
            Err(e) => query_of(line as int, name@, kind, stmt@, schema@) == Err::<
                QueryView,
                Fault,
            >(e@),
        },
{
    let t = sql_tokens(stmt);
    let ghost ts = texts(t@);
    assert(t@.len() > 0 ==> ts[0] == t@[0]@);
    if t.len() > 0 && spells(t[0].as_slice(), "select") {
        if !same_tokens(&t, &expected_select(schema)) {
            return Err(err(line, select_error(schema, name, &t)));
        }
        if kind != QueryKind::One {
            return Err(
                err(
                    line,
                    cat3(
                        "query ",
                        quote_chars(name).as_str(),
                        ": SELECT by primary key must be ':one'",
                    ),
                ),
            );
        }
        return Ok(Query { name: string_of(name), kind, shape: QueryShape::SelectByPk });
    }
    if t.len() > 0 && spells(t[0].as_slice(), "insert") {
        if !same_tokens(&t, &expected_insert(schema)) {
            return Err(err(line, insert_error(schema, name, &t)));
        }
        if kind != QueryKind::Exec {
            return Err(
                err(
                    line,
                    cat3("query ", quote_chars(name).as_str(), ": INSERT must be ':exec'"),
                ),
            );
        }
        return Ok(Query { name: string_of(name), kind, shape: QueryShape::InsertRow });
    }
    let first = if t.len() > 0 {
        quote_chars(t[0].as_slice())
    } else {
        quote("<empty>")
    };
    Err(
        err(
            line,
            cat5(
                "query ",
                quote_chars(name).as_str(),
                ": unsupported statement ",
                first.as_str(),
                "; the v1 operation space is SELECT-by-primary-key and INSERT",
            ),
        ),
    )
}

// ---- The whole text ----

/// A query whose statement is still being read.
#[verifier::ext_equal]
pub struct Pending {
    pub line: int,
    pub name: Seq<char>,
    pub kind: QueryKind,
    pub stmt: Seq<char>,
}

/// How far the text has been read.
#[verifier::ext_equal]
pub struct Declared {
    pub queries: Seq<QueryView>,
    pub pending: Option<Pending>,
}

pub open spec fn starts_with(s: Seq<char>, p: Seq<char>) -> bool {
    s.len() >= p.len() && s.take(p.len() as int) == p
}

pub open spec fn has_query(queries: Seq<QueryView>, name: Seq<char>) -> bool {
    exists|i: int| 0 <= i < queries.len() && (#[trigger] queries[i]).name == name
}

/// A `name:` annotation: the query it opens.
pub open spec fn annotation(at: Declared, line: int, comment: Seq<char>) -> Result<Pending, Fault> {
    let w = words(comment.skip("name:"@.len() as int));
    match at.pending {
        Some(p) => fault(
            line,
            "query "@ + quoted(p.name) + " (line "@ + decimal(p.line as nat)
                + ") has no terminating ';'"@,
        ),
        None => if w.len() != 2 {
            fault(
                line,
                "expected '-- name: <ident> :one|:exec', found "@ + quoted(comment),
            )
        } else if !identifier(w[0]) {
            fault(line, "query name "@ + quoted(w[0]) + " must be lower_snake_case ascii"@)
        } else if has_query(at.queries, w[0]) {
            fault(line, "duplicate query name "@ + quoted(w[0]))
        } else if w[1] == ":one"@ {
            Ok(Pending { line, name: w[0], kind: QueryKind::One, stmt: Seq::empty() })
        } else if w[1] == ":exec"@ {
            Ok(Pending { line, name: w[0], kind: QueryKind::Exec, stmt: Seq::empty() })
        } else {
            fault(
                line,
                "unknown result kind "@ + quoted(w[1]) + "; v1 knows :one and :exec"@,
            )
        },
    }
}

/// Reading one more line.
pub open spec fn declare_line(at: Declared, line: int, raw: Seq<char>, s: SchemaView) -> Result<
    Declared,
    Fault,
> {
    let code = trimmed(raw);
    if starts_with(code, "--"@) {
        let comment = trimmed(code.skip(2));
        if starts_with(comment, "name:"@) {
            match annotation(at, line, comment) {
                Err(e) => Err(e),
                Ok(p) => Ok(Declared { pending: Some(p), ..at }),
            }
        } else if found(comment, "name:"@) is Some {
            fault(
                line,
                "malformed name annotation: "@ + quoted(comment)
                    + " (write '-- name: <ident> :one|:exec')"@,
            )
        } else {
            Ok(at)
        }
    } else if code.len() == 0 {
        Ok(at)
    } else {
        match at.pending {
            None => fault(
                line,
                "statement without a '-- name:' annotation: "@ + quoted(code),
            ),
            Some(p) => {
                let stmt = p.stmt + " "@ + code;
                if code.last() == ';' {
                    match query_of(p.line, p.name, p.kind, stmt, s) {
                        Err(e) => Err(e),
                        Ok(q) => Ok(Declared { queries: at.queries.push(q), pending: None }),
                    }
                } else {
                    Ok(Declared { pending: Some(Pending { stmt, ..p }), ..at })
                }
            },
        }
    }
}

pub open spec fn declare_lines(all: Seq<Seq<char>>, n: int, s: SchemaView) -> Result<Declared, Fault>
    decreases n,
{
    if n <= 0 {
        Ok(Declared { queries: Seq::empty(), pending: None })
    } else {
        match declare_lines(all, n - 1, s) {
            Err(e) => Err(e),
            Ok(at) => declare_line(at, n, all[n - 1], s),
        }
    }
}

/// Does the line end a statement, so that it is held against the schema?
pub open spec fn ends_statement(at: Declared, raw: Seq<char>) -> bool {
    let code = trimmed(raw);
    &&& !starts_with(code, "--"@)
    &&& code.len() > 0
    &&& at.pending is Some
    &&& code.last() == ';'
}

/// Is any statement of the text held against the schema?
pub open spec fn consults_schema(sql: Seq<char>, s: SchemaView) -> bool {
    let all = lines(sql);
    exists|n: int|
        {
            &&& 0 <= n < all.len()
            &&& #[trigger] declare_lines(all, n, s) matches Ok(at) && ends_statement(at, all[n])
        }
}

/// What a text declares.
pub open spec fn queries_of(sql: Seq<char>, s: SchemaView) -> Result<Seq<QueryView>, Fault> {
    let all = lines(sql);
    match declare_lines(all, all.len() as int, s) {
        Err(e) => Err(e),
        Ok(at) => match at.pending {
            Some(p) => fault(p.line, "query "@ + quoted(p.name) + " has no terminating ';'"@),
            None => if at.queries.len() == 0 {
                fault(0, "no queries declared; the operation space may not be empty"@)
            } else {
                Ok(at.queries)
            },
        },
    }
}

/// A query whose statement is still being read.
struct Open {
    line: usize,
    name: Vec<char>,
    kind: QueryKind,
    stmt: Vec<char>,
}

struct Progress {
    queries: Vec<Query>,
    open: Option<Open>,
}

impl Progress {
    spec fn view(&self) -> Declared {
        Declared {
            queries: queries_view(self.queries@),
            pending: match self.open {
                None => None,
                Some(o) => Some(
                    Pending { line: o.line as int, name: o.name@, kind: o.kind, stmt: o.stmt@ },
                ),
            },
        }
    }

    fn is_declared(&self, name: &[char]) -> (yes: bool)
        ensures
            yes == has_query(queries_view(self.queries@), name@),
    {
        let mut i: usize = 0;
        while i < self.queries.len()
            invariant
                i <= self.queries@.len(),
                forall|j: int|
                    0 <= j < i ==> (#[trigger] queries_view(self.queries@)[j]).name != name@,
            decreases self.queries@.len() - i,
        {
            if spells(name, self.queries[i].name.as_str()) {
                assert(queries_view(self.queries@)[i as int].name == name@);
                return true;
            }
            i = i + 1;
        }
        false
    }

    #[verifier::rlimit(40)]
    fn annotate(&self, line: usize, comment: &[char]) -> (res: Result<Open, ParseError>)
        requires
            starts_with(comment@, "name:"@),
        ensures
            match res {
                Ok(o) => annotation(self.view(), line as int, comment@) == Ok::<Pending, Fault>(
                    Pending { line: o.line as int, name: o.name@, kind: o.kind, stmt: o.stmt@ },
                ),
                Err(e) => annotation(self.view(), line as int, comment@) == Err::<Pending, Fault>(
                    e@,
                ),
            },
    {
        proof {
            reveal_strlit("name:");
        }
        if let Some(open) = &self.open {
            let mut msg = cat3("query ", quote_chars(open.name.as_slice()).as_str(), " (line ");
            push_decimal(&mut msg, open.line);
            msg.append(") has no terminating ';'");
            return Err(err(line, msg));
        }
        let rest = slice_subrange(comment, 5, comment.len());
        assert(rest@ =~= comment@.skip("name:"@.len() as int));
        let w = split_words(rest);
        let ghost ws = texts(w@);
        if w.len() != 2 {
            return Err(
                err(
                    line,
                    cat2("expected '-- name: <ident> :one|:exec', found ", quote_chars(comment).as_str()),
                ),
            );
        }
        assert(ws[0] == w@[0]@ && ws[1] == w@[1]@);
        let name = w[0].as_slice();
        if !is_ident(name) {
            return Err(
                err(
                    line,
                    cat3(
                        "query name ",
                        quote_chars(name).as_str(),
                        " must be lower_snake_case ascii",
                    ),
                ),
            );
        }
        if self.is_declared(name) {
            return Err(err(line, cat2("duplicate query name ", quote_chars(name).as_str())));
        }
        let kind = if spells(w[1].as_slice(), ":one") {
            QueryKind::One
        } else if spells(w[1].as_slice(), ":exec") {
            QueryKind::Exec
        } else {
            return Err(
                err(
                    line,
                    cat3(
                        "unknown result kind ",
                        quote_chars(w[1].as_slice()).as_str(),
                        "; v1 knows :one and :exec",
                    ),
                ),
            );
        };
        let stmt: Vec<char> = Vec::new();
        assert(stmt@ =~= Seq::empty());
        Ok(Open { line, name: copy_of(name), kind, stmt })
    }

    #[verifier::rlimit(60)]
    #[verifier::spinoff_prover]
    fn read(&mut self, line: usize, raw: &[char], schema: &Schema) -> (res: Option<ParseError>)
        requires
            ends_statement(old(self).view(), raw@) ==> schema.columns@.len() > 0,
        ensures
            match res {
                None => declare_line(old(self).view(), line as int, raw@, schema@) == Ok::<
                    Declared,
                    Fault,
                >(final(self).view()),
                Some(e) => declare_line(old(self).view(), line as int, raw@, schema@) == Err::<
                    Declared,
                    Fault,
                >(e@),
            },
    {
        proof {
            reveal_strlit("--");
            reveal_strlit("name:");
            reveal_strlit(" ");
        }
        let code = trim(raw);
        if begins(code, "--") {
            let comment = trim(slice_subrange(code, 2, code.len()));
            assert(code@.subrange(2, code@.len() as int) =~= code@.skip(2));
            if begins(comment, "name:") {
                match self.annotate(line, comment) {
                    Ok(open) => {
                        self.open = Some(open);
                        return None;
                    },
                    Err(e) => {
                        return Some(e);
                    },
                }
            }
            if find(comment, "name:").is_some() {
                return Some(
                    err(
                        line,
                        cat3(
                            "malformed name annotation: ",
                            quote_chars(comment).as_str(),
                            " (write '-- name: <ident> :one|:exec')",
                        ),
                    ),
                );
            }
            return None;
        }
        if code.len() == 0 {
            return None;
        }
        let mut taken: Option<Open> = None;
        std::mem::swap(&mut taken, &mut self.open);
        match taken {
            None => Some(
                err(
                    line,
                    cat2("statement without a '-- name:' annotation: ", quote_chars(code).as_str()),
                ),
            ),
            Some(open) => {
                let mut stmt = open.stmt;
                let ghost before = stmt@;
                stmt.push(' ');
                push_chars(&mut stmt, code);
                assert(stmt@ =~= before + " "@ + code@);
                if code[code.len() - 1] == ';' {
                    match validate_query(
                        open.line,
                        open.name.as_slice(),
                        open.kind,
                        stmt.as_slice(),
                        schema,
                    ) {
                        Ok(q) => {
                            let ghost qs = self.queries@;
                            self.queries.push(q);
                            assert(queries_view(self.queries@) =~= queries_view(qs).push(q@));
                            None
                        },
                        Err(e) => Some(e),
                    }
                } else {
                    self.open = Some(
                        Open { line: open.line, name: open.name, kind: open.kind, stmt },
                    );
                    None
                }
            },
        }
    }
}

fn push_chars(v: &mut Vec<char>, more: &[char])
    ensures
        final(v)@ == old(v)@ + more@,
{
    let mut i: usize = 0;
    while i < more.len()
        invariant
            i <= more@.len(),
            v@ =~= old(v)@ + more@.take(i as int),
        decreases more@.len() - i,
    {
        v.push(more[i]);
        i = i + 1;
    }
    assert(more@.take(i as int) =~= more@);
}

fn begins(v: &[char], p: &str) -> (yes: bool)
    ensures
        yes == starts_with(v@, p@),
{
    let w = chars_of(p);
    if v.len() < w.len() {
        return false;
    }
    assert(v@.subrange(0, w@.len() as int) =~= v@.take(p@.len() as int));
    same(slice_subrange(v, 0, w.len()), w.as_slice())
}

proof fn declaring_stops(all: Seq<Seq<char>>, m: int, n: int, s: SchemaView)
    requires
        0 <= m <= n,
        declare_lines(all, m, s) is Err,
    ensures
        declare_lines(all, n, s) == declare_lines(all, m, s),
    decreases n - m,
{
    if m < n {
        declaring_stops(all, m, n - 1, s);
    }
}

/// Parse a file of declared queries. A statement can only be held against a
/// schema that has a primary key.
pub fn parse_queries(sql: &str, schema: &Schema) -> (res: Result<Vec<Query>, ParseError>)
    requires
        consults_schema(sql@, schema@) ==> schema@.columns.len() > 0,
    ensures
        match res {
            Ok(q) => queries_of(sql@, schema@) == Ok::<Seq<QueryView>, Fault>(queries_view(q@)),
            Err(e) => queries_of(sql@, schema@) == Err::<Seq<QueryView>, Fault>(e@),
        },
{
    let all = split_lines(chars_of(sql).as_slice());
    let ghost ls = lines(sql@);
    let mut p = Progress { queries: Vec::new(), open: None };
    assert(queries_view(p.queries@) =~= Seq::empty());
    let mut i: usize = 0;
    while i < all.len()
        invariant
            i <= all@.len(),
            texts(all@) == ls,
            ls == lines(sql@),
            consults_schema(sql@, schema@) ==> schema.columns@.len() > 0,
            declare_lines(ls, i as int, schema@) == Ok::<Declared, Fault>(p.view()),
        decreases all@.len() - i,
    {
        assert(ls[i as int] == all@[i as int]@);
        assert(ends_statement(p.view(), ls[i as int]) ==> consults_schema(sql@, schema@));
        match p.read(i + 1, all[i].as_slice(), schema) {
            Some(e) => {
                proof {
                    declaring_stops(ls, i + 1, ls.len() as int, schema@);
                }
                return Err(e);
            },
            None => {},
        }
        i = i + 1;
    }
    if let Some(open) = &p.open {
        return Err(
            err(
                open.line,
                cat3(
                    "query ",
                    quote_chars(open.name.as_slice()).as_str(),
                    " has no terminating ';'",
                ),
            ),
        );
    }
    if p.queries.len() == 0 {
        return Err(
            err(0, "no queries declared; the operation space may not be empty".to_owned()),
        );
    }
    Ok(p.queries)
}

// ---- The operation space ----

/// Names in the order of their characters.
pub open spec fn name_le(a: Seq<char>, b: Seq<char>) -> bool
    decreases a.len(),
{
    if a.len() == 0 {
        true
    } else if b.len() == 0 {
        false
    } else if a[0] != b[0] {
        a[0] < b[0]
    } else {
        name_le(a.drop_first(), b.drop_first())
    }
}

pub fn is_name_le(a: &[char], b: &[char]) -> (yes: bool)
    ensures
        yes == name_le(a@, b@),
{
    let mut i: usize = 0;
    assert(a@.skip(0) =~= a@);
    assert(b@.skip(0) =~= b@);
    while i < a.len()
        invariant
            i <= a@.len(),
            i <= b@.len(),
            name_le(a@, b@) == name_le(a@.skip(i as int), b@.skip(i as int)),
        decreases a@.len() - i,
    {
        if i == b.len() {
            return false;
        }
        assert(a@.skip(i as int).drop_first() =~= a@.skip(i + 1));
        assert(b@.skip(i as int).drop_first() =~= b@.skip(i + 1));
        if a[i] != b[i] {
            return a[i] < b[i];
        }
        i = i + 1;
    }
    true
}

/// Where a query goes in a sorted list: behind every name that is not greater.
pub open spec fn place(list: Seq<QueryView>, q: QueryView) -> int
    decreases list.len(),
{
    if list.len() == 0 || name_le(list.last().name, q.name) {
        list.len() as int
    } else {
        place(list.drop_last(), q)
    }
}

/// The first `n` queries sorted by name; equal names stay in their order.
pub open spec fn sorted(queries: Seq<QueryView>, n: int) -> Seq<QueryView>
    decreases n,
{
    if n <= 0 {
        Seq::empty()
    } else {
        let before = sorted(queries, n - 1);
        before.insert(place(before, queries[n - 1]), queries[n - 1])
    }
}

pub open spec fn kind_word(kind: QueryKind) -> Seq<char> {
    match kind {
        QueryKind::One => "one"@,
        QueryKind::Exec => "exec"@,
    }
}

pub open spec fn shape_word(shape: QueryShape) -> Seq<char> {
    match shape {
        QueryShape::SelectByPk => "select_by_pk"@,
        QueryShape::InsertRow => "insert_row"@,
    }
}

pub open spec fn canonical_queries(list: Seq<QueryView>, n: int) -> Seq<char>
    decreases n,
{
    if n <= 0 {
        Seq::empty()
    } else {
        let q = list[n - 1];
        canonical_queries(list, n - 1) + (q.name + ":"@ + kind_word(q.kind) + ":"@ + shape_word(
            q.shape,
        ) + ";"@)
    }
}

/// The text that stands for an operation space: its queries by name, whatever
/// order they were declared in.
pub open spec fn space_text(queries: Seq<QueryView>) -> Seq<char> {
    let list = sorted(queries, queries.len() as int);
    "dabqlite-queries-v1;"@ + canonical_queries(list, list.len() as int)
}

/// The hash of an operation space.
pub open spec fn space_hash(queries: Seq<QueryView>) -> u64 {
    fnv(encode_utf8(space_text(queries)))
}

/// The queries that these indices pick.
spec fn picked(queries: Seq<QueryView>, idx: Seq<usize>) -> Seq<QueryView> {
    idx.map_values(|i: usize| queries[i as int])
}

fn sort_queries(queries: &[Query]) -> (idx: Vec<usize>)
    ensures
        picked(queries_view(queries@), idx@) == sorted(
            queries_view(queries@),
            queries@.len() as int,
        ),
        forall|j: int| 0 <= j < idx@.len() ==> (#[trigger] idx@[j]) < queries@.len(),
{
    let ghost qs = queries_view(queries@);
    let mut idx: Vec<usize> = Vec::new();
    assert(picked(qs, idx@) =~= Seq::empty());
    let mut n: usize = 0;
    while n < queries.len()
        invariant
            n <= queries@.len(),
            qs == queries_view(queries@),
            picked(qs, idx@) == sorted(qs, n as int),
            forall|j: int| 0 <= j < idx@.len() ==> (#[trigger] idx@[j]) < queries@.len(),
        decreases queries@.len() - n,
    {
        let name = chars_of(queries[n].name.as_str());
        let ghost list = picked(qs, idx@);
        let ghost q = qs[n as int];
        let mut p: usize = idx.len();
        assert(list.take(p as int) =~= list);
        while p > 0 && !is_name_le(
            chars_of(queries[idx[p - 1]].name.as_str()).as_slice(),
            name.as_slice(),
        )
            invariant
                p <= idx@.len(),
                n < queries@.len(),
                qs == queries_view(queries@),
                list == picked(qs, idx@),
                q == qs[n as int],
                name@ == q.name,
                forall|j: int| 0 <= j < idx@.len() ==> (#[trigger] idx@[j]) < queries@.len(),
                place(list, q) == place(list.take(p as int), q),
            decreases p,
        {
            assert(list.take(p as int).drop_last() =~= list.take(p - 1));
            p = p - 1;
        }
        let ghost before = idx@;
        idx.insert(p, n);
        proof {
            assert(place(list, q) == p);
            assert(picked(qs, idx@) =~= list.insert(p as int, q));
        }
        n = n + 1;
    }
    idx
}

pub fn query_space_hash(queries: &[Query]) -> (h: u64)
    ensures
        h == space_hash(queries_view(queries@)),
{
    let ghost qs = queries_view(queries@);
    let idx = sort_queries(queries);
    let ghost list = picked(qs, idx@);
    let mut canon = String::new();
    canon.append("dabqlite-queries-v1;");
    let ghost head = canon@;
    assert(head =~= "dabqlite-queries-v1;"@);
    assert(head + canonical_queries(list, 0) =~= head);
    let mut i: usize = 0;
    while i < idx.len()
        invariant
            i <= idx@.len(),
            qs == queries_view(queries@),
            list == picked(qs, idx@),
            forall|j: int| 0 <= j < idx@.len() ==> (#[trigger] idx@[j]) < queries@.len(),
            canon@ == head + canonical_queries(list, i as int),
        decreases idx@.len() - i,
    {
        let q = &queries[idx[i]];
        let ghost before = canon@;
        assert(list[i as int] == q@);
        canon.append(q.name.as_str());
        canon.append(":");
        canon.append(
            match q.kind {
                QueryKind::One => "one",
                QueryKind::Exec => "exec",
            },
        );
        canon.append(":");
        canon.append(
            match q.shape {
                QueryShape::SelectByPk => "select_by_pk",
                QueryShape::InsertRow => "insert_row",
            },
        );
        canon.append(";");
        proof {
            let line = q@.name + ":"@ + kind_word(q@.kind) + ":"@ + shape_word(q@.shape) + ";"@;
            assert(canon@ =~= before + line);
            assert(canon@ =~= head + canonical_queries(list, i + 1));
        }
        i = i + 1;
    }
    fnv1a64(canon.as_str().as_bytes())
}

// ---- The generated client surface ----

/// The operations' names in quotes, separated by commas.
pub open spec fn operations_text(list: Seq<QueryView>, n: int) -> Seq<char>
    decreases n,
{
    if n <= 0 {
        Seq::empty()
    } else {
        let name = "\""@ + list[n - 1].name + "\""@;
        if n == 1 {
            name
        } else {
            operations_text(list, n - 1) + ", "@ + name
        }
    }
}

/// The first `n` columns as parameters.
pub open spec fn parameters_text(columns: Seq<ColumnView>, n: int) -> Seq<char>
    decreases n,
{
    if n <= 0 {
        Seq::empty()
    } else {
        let one = columns[n - 1].name + ": "@ + field_type(columns[n - 1].ty);
        if n == 1 {
            one
        } else {
            parameters_text(columns, n - 1) + ", "@ + one
        }
    }
}

pub open spec fn surface_head(source: Seq<char>) -> Seq<char> {
    "// @generated by dabqlite-codegen from "@ + source
        + ". DO NOT EDIT.\n// The complete, finite operation space (docs/DESIGN.md §4.3):\n// nothing outside this module can ever be asked of the engine.\n\n"@
}

pub open spec fn surface_consts(queries: Seq<QueryView>) -> Seq<char> {
    let list = sorted(queries, queries.len() as int);
    "/// Every operation the compiled client surface exposes.\npub const OPERATIONS: &[&str] = &["@
        + operations_text(list, list.len() as int)
        + "];\n/// Two binaries agree on the operation space iff these match.\npub const QUERY_SPACE_HASH: u64 = 0x"@
        + hex(space_hash(queries) as nat, 16) + ";\n\n"@
}

/// One query's function.
pub open spec fn query_fn(s: SchemaView, q: QueryView) -> Seq<char> {
    match q.shape {
        QueryShape::InsertRow => "/// `-- name: "@ + q.name + " :exec` — INSERT one `"@ + s.table
            + "` row. Durably\n/// committed when the engine answers `InsertDone { result: Ok }`.\npub fn "@
            + q.name + "("@ + parameters_text(s.columns, s.columns.len() as int)
            + ") -> crate::engine::Input<'static> {\n    crate::engine::Input::Insert { id, value }\n}\n\n"@,
        QueryShape::SelectByPk => "/// `-- name: "@ + q.name + " :one` — SELECT one `"@ + s.table
            + "` row by primary key.\n/// Answered by `GetDone`; pure in-memory, no I/O requests.\npub fn "@
            + q.name
            + "(id: u64) -> crate::engine::Input<'static> {\n    crate::engine::Input::Get { id }\n}\n\n"@,
    }
}

pub open spec fn query_fns(s: SchemaView, queries: Seq<QueryView>, n: int) -> Seq<char>
    decreases n,
{
    if n <= 0 {
        Seq::empty()
    } else {
        query_fns(s, queries, n - 1) + query_fn(s, queries[n - 1])
    }
}

/// The whole generated file.
pub open spec fn surface_text(s: SchemaView, queries: Seq<QueryView>, source: Seq<char>) -> Seq<
    char,
> {
    surface_head(source) + surface_consts(queries) + query_fns(s, queries, queries.len() as int)
}

/// The one table shape that the engine's inputs carry.
pub open spec fn engine_shaped(s: SchemaView) -> bool {
    &&& s.columns.len() == 2
    &&& s.columns[0].name == "id"@
    &&& s.columns[1].name == "value"@
}

fn push_surface_consts(o: &mut String, queries: &[Query])
    ensures
        final(o)@ == old(o)@ + surface_consts(queries_view(queries@)),
{
    let ghost qs = queries_view(queries@);
    let idx = sort_queries(queries);
    let ghost list = picked(qs, idx@);
    o.append("/// Every operation the compiled client surface exposes.\npub const OPERATIONS: &[&str] = &[");
    let ghost head = o@;
    assert(head + operations_text(list, 0) =~= head);
    let mut i: usize = 0;
    while i < idx.len()
        invariant
            i <= idx@.len(),
            qs == queries_view(queries@),
            list == picked(qs, idx@),
            forall|j: int| 0 <= j < idx@.len() ==> (#[trigger] idx@[j]) < queries@.len(),
            o@ == head + operations_text(list, i as int),
        decreases idx@.len() - i,
    {
        let q = &queries[idx[i]];
        assert(list[i as int] == q@);
        if i > 0 {
            o.append(", ");
        }
        o.append("\"");
        o.append(q.name.as_str());
        o.append("\"");
        assert(o@ =~= head + operations_text(list, i + 1));
        i = i + 1;
    }
    o.append("];\n/// Two binaries agree on the operation space iff these match.\npub const QUERY_SPACE_HASH: u64 = 0x");
    push_hex(o, query_space_hash(queries), 16);
    o.append(";\n\n");
    assert(o@ =~= old(o)@ + surface_consts(qs));
}

fn push_parameters(o: &mut String, columns: &Vec<Column>)
    ensures
        final(o)@ == old(o)@ + parameters_text(columns_view(columns@), columns@.len() as int),
{
    let ghost cs = columns_view(columns@);
    let mut i: usize = 0;
    assert(o@ =~= old(o)@ + parameters_text(cs, 0));
    while i < columns.len()
        invariant
            cs == columns_view(columns@),
            i <= cs.len(),
            o@ == old(o)@ + parameters_text(cs, i as int),
        decreases cs.len() - i,
    {
        assert(cs[i as int] == columns@[i as int]@);
        if i > 0 {
            o.append(", ");
        }
        o.append(columns[i].name.as_str());
        o.append(": ");
        o.append(field_type_of(columns[i].ty).as_str());
        assert(o@ =~= old(o)@ + parameters_text(cs, i + 1));
        i = i + 1;
    }
}

fn push_query_fn(o: &mut String, schema: &Schema, q: &Query)
    ensures
        final(o)@ == old(o)@ + query_fn(schema@, q@),
{
    o.append("/// `-- name: ");
    o.append(q.name.as_str());
    match q.shape {
        QueryShape::InsertRow => {
            o.append(" :exec` — INSERT one `");
            o.append(schema.table.as_str());
            o.append("` row. Durably\n/// committed when the engine answers `InsertDone { result: Ok }`.\npub fn ");
            o.append(q.name.as_str());
            o.append("(");
            push_parameters(o, &schema.columns);
            o.append(") -> crate::engine::Input<'static> {\n    crate::engine::Input::Insert { id, value }\n}\n\n");
        },
        QueryShape::SelectByPk => {
            o.append(" :one` — SELECT one `");
            o.append(schema.table.as_str());
            o.append("` row by primary key.\n/// Answered by `GetDone`; pure in-memory, no I/O requests.\npub fn ");
            o.append(q.name.as_str());
            o.append("(id: u64) -> crate::engine::Input<'static> {\n    crate::engine::Input::Get { id }\n}\n\n");
        },
    }
    assert(o@ =~= old(o)@ + query_fn(schema@, q@));
}

/// Generate the client surface for the declared queries. The engine's inputs
/// are exactly an insert of `(id, value)` and a get by `id`.
pub fn emit_queries_rust(schema: &Schema, queries: &[Query], source_name: &str) -> (o: String)
    requires
        engine_shaped(schema@),
    ensures
        o@ == surface_text(schema@, queries_view(queries@), source_name@),
{
    let ghost qs = queries_view(queries@);
    let ghost s = schema@;
    let mut o = cat3(
        "// @generated by dabqlite-codegen from ",
        source_name,
        ". DO NOT EDIT.\n// The complete, finite operation space (docs/DESIGN.md §4.3):\n// nothing outside this module can ever be asked of the engine.\n\n",
    );
    push_surface_consts(&mut o, queries);
    let ghost head = o@;
    assert(head + query_fns(s, qs, 0) =~= head);
    let mut i: usize = 0;
    while i < queries.len()
        invariant
            i <= queries@.len(),
            qs == queries_view(queries@),
            s == schema@,
            o@ == head + query_fns(s, qs, i as int),
        decreases queries@.len() - i,
    {
        assert(qs[i as int] == queries@[i as int]@);
        push_query_fn(&mut o, schema, &queries[i]);
        assert(o@ =~= head + query_fns(s, qs, i + 1));
        i = i + 1;
    }
    o
}

} // verus!
