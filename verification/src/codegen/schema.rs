//! Reading a schema: one `CREATE TABLE`, one column to a line.

use crate::codegen::text::{
    chars_of, copy_of, decimal, find, found, identifier, index_from, index_of, is_ident, lines,
    lower, lowered_all, number, parse_number, push_decimal, quote, quoted, spells, split_lines,
    split_words, string_of, texts, trim, trimmed, words,
};
use vstd::prelude::*;
use vstd::slice::slice_subrange;
use vstd::string::*;

verus! {

/// Column types.
#[derive(Debug, Clone, Copy, PartialEq, Eq, Structural)]
pub enum ColType {
    /// 8 bytes, little-endian. The primary key must be one of these.
    BigInt,
    /// Fixed-width byte string of exactly `n` bytes (`BYTEA -- @fixed(n)`).
    FixedBytes(u32),
}

impl ColType {
    pub open spec fn spec_width(self) -> int {
        match self {
            ColType::BigInt => 8,
            ColType::FixedBytes(n) => n as int,
        }
    }

    pub fn width(self) -> (w: usize)
        ensures
            w == self.spec_width(),
    {
        match self {
            ColType::BigInt => 8,
            ColType::FixedBytes(n) => n as usize,
        }
    }
}

#[derive(Debug, Clone, PartialEq, Eq)]
pub struct Column {
    pub name: String,
    pub ty: ColType,
    pub primary_key: bool,
    /// Searchable by substring (`-- @index(trigram)`). Shapes operations, not
    /// layout.
    pub trigram: bool,
}

#[derive(Debug, Clone, PartialEq, Eq)]
pub struct Schema {
    pub table: String,
    pub columns: Vec<Column>,
}

#[derive(Debug, Clone, PartialEq, Eq)]
pub struct ParseError {
    pub line: usize,
    pub msg: String,
}

/// A column, its name as characters.
#[verifier::ext_equal]
pub struct ColumnView {
    pub name: Seq<char>,
    pub ty: ColType,
    pub primary_key: bool,
    pub trigram: bool,
}

/// A schema, its names as characters.
#[verifier::ext_equal]
pub struct SchemaView {
    pub table: Seq<char>,
    pub columns: Seq<ColumnView>,
}

/// A parse error, its message as characters.
#[verifier::ext_equal]
pub struct Fault {
    pub line: int,
    pub msg: Seq<char>,
}

impl View for Column {
    type V = ColumnView;

    open spec fn view(&self) -> ColumnView {
        ColumnView {
            name: self.name@,
            ty: self.ty,
            primary_key: self.primary_key,
            trigram: self.trigram,
        }
    }
}

pub open spec fn columns_view(columns: Seq<Column>) -> Seq<ColumnView> {
    columns.map_values(|c: Column| c@)
}

impl View for Schema {
    type V = SchemaView;

    open spec fn view(&self) -> SchemaView {
        SchemaView { table: self.table@, columns: columns_view(self.columns@) }
    }
}

impl View for ParseError {
    type V = Fault;

    open spec fn view(&self) -> Fault {
        Fault { line: self.line as int, msg: self.msg@ }
    }
}

impl ParseError {
    /// The error as one line of text.
    pub fn to_text(&self) -> (s: String)
        ensures
            s@ == "schema line "@ + decimal(self.line as nat) + ": "@ + self.msg@,
    {
        let mut s = String::new();
        s.append("schema line ");
        push_decimal(&mut s, self.line);
        s.append(": ");
        s.append(self.msg.as_str());
        assert(s@ =~= "schema line "@ + decimal(self.line as nat) + ": "@ + self.msg@);
        s
    }
}

pub open spec fn fault<T>(line: int, msg: Seq<char>) -> Result<T, Fault> {
    Err(Fault { line, msg })
}

pub(crate) fn cat2(a: &str, b: &str) -> (s: String)
    ensures
        s@ == a@ + b@,
{
    let mut s = String::new();
    s.append(a);
    s.append(b);
    assert(s@ =~= a@ + b@);
    s
}

/// The text of `a`, `b` and `c` in a row.
pub(crate) fn cat3(a: &str, b: &str, c: &str) -> (s: String)
    ensures
        s@ == a@ + b@ + c@,
{
    let mut s = String::new();
    s.append(a);
    s.append(b);
    s.append(c);
    assert(s@ =~= a@ + b@ + c@);
    s
}

pub(crate) fn cat5(a: &str, b: &str, c: &str, d: &str, e: &str) -> (s: String)
    ensures
        s@ == a@ + b@ + c@ + d@ + e@,
{
    let mut s = cat3(a, b, c);
    s.append(d);
    s.append(e);
    s
}

pub(crate) fn quote_chars(v: &[char]) -> (q: String)
    ensures
        q@ == quoted(v@),
{
    quote(string_of(v).as_str())
}

// ---- Lines ----

/// The code on a line: what stands in front of `--`.
pub open spec fn line_code(raw: Seq<char>) -> Seq<char> {
    match found(raw, "--"@) {
        Some(i) => trimmed(raw.take(i)),
        None => trimmed(raw),
    }
}

/// The comment on a line: what stands behind `--`.
pub open spec fn line_comment(raw: Seq<char>) -> Seq<char> {
    match found(raw, "--"@) {
        Some(i) => trimmed(raw.skip(i + 2)),
        None => Seq::empty(),
    }
}

/// The line that opens the table: its name.
pub open spec fn header(line: int, code: Seq<char>) -> Result<Seq<char>, Fault> {
    let w = words(code);
    if w.len() != 4 {
        fault(
            line,
            "expected 'CREATE TABLE <name> (' on one line, found "@ + quoted(code),
        )
    } else if lowered_all(w[0]) != "create"@ || lowered_all(w[1]) != "table"@ || w[3] != "("@ {
        fault(line, "expected 'CREATE TABLE <name> (', found "@ + quoted(code))
    } else if !identifier(w[2]) {
        fault(line, "table name "@ + quoted(w[2]) + " must be lower_snake_case ascii"@)
    } else {
        Ok(w[2])
    }
}

/// What an annotation `@key(..)` has in its brackets, if the comment has one.
/// The inner result is the error that a missing bracket is.
pub open spec fn bracketed(comment: Seq<char>, key: Seq<char>) -> Option<Option<Seq<char>>> {
    match found(comment, key) {
        None => None,
        Some(i) => {
            let rest = comment.skip(i + key.len());
            match index_from(rest, ')', 0) {
                None => Some(None),
                Some(end) => Some(Some(rest.take(end))),
            }
        },
    }
}

/// The width that a comment's `@fixed(n)` gives.
pub open spec fn fixed_width(line: int, comment: Seq<char>) -> Result<Option<u32>, Fault> {
    match bracketed(comment, "@fixed("@) {
        None => if found(comment, "@index("@) is None && index_from(comment, '@', 0) is Some {
            fault(
                line,
                "unrecognized annotation in comment "@ + quoted(comment)
                    + "; v1 knows @fixed(n)"@,
            )
        } else {
            Ok(None)
        },
        Some(None) => fault(line, "@fixed( is missing its closing ')'"@),
        Some(Some(inner)) => match number(trimmed(inner)) {
            Some(n) => Ok(Some(n)),
            None => fault(line, "@fixed("@ + inner + ") is not a number"@),
        },
    }
}

/// Does a comment ask for a trigram index?
pub open spec fn trigram_index(line: int, comment: Seq<char>) -> Result<bool, Fault> {
    match bracketed(comment, "@index("@) {
        None => Ok(false),
        Some(None) => fault(line, "@index( is missing its closing ')'"@),
        Some(Some(inner)) => if trimmed(inner) == "trigram"@ {
            Ok(true)
        } else {
            fault(line, "@index("@ + inner + ") is not a v1 index method; v1 knows trigram"@)
        },
    }
}

/// A column's type, from its type word and its annotations.
pub open spec fn column_type(
    line: int,
    name: Seq<char>,
    word: Seq<char>,
    fixed: Option<u32>,
    trigram: bool,
) -> Result<ColType, Fault> {
    let column = "column "@ + quoted(name);
    if lowered_all(word) == "bigint"@ {
        if fixed is Some {
            fault(line, column + ": @fixed(n) applies to BYTEA, not BIGINT"@)
        } else if trigram {
            fault(line, column + ": @index(trigram) applies to BYTEA, not BIGINT"@)
        } else {
            Ok(ColType::BigInt)
        }
    } else if lowered_all(word) == "bytea"@ {
        match fixed {
            None => fault(
                line,
                column
                    + ": BYTEA needs a width annotation, e.g. 'value BYTEA NOT NULL -- @fixed(16)' (v1 stores fixed-width slots; varlen spill lands with the blob zone)"@,
            ),
            Some(n) => if n == 0 || n > 256 {
                fault(
                    line,
                    column + ": @fixed("@ + decimal(n as nat)
                        + ") out of range; row fields are 1..=256 bytes (larger values belong in the blob zone)"@,
                )
            } else {
                Ok(ColType::FixedBytes(n))
            },
        }
    } else {
        fault(
            line,
            column + ": unsupported type "@ + quoted(word)
                + "; v1 supports BIGINT and BYTEA -- @fixed(n)"@,
        )
    }
}

/// A column's modifiers from the `i`th on: is it `NOT NULL`, is it the
/// `PRIMARY KEY`?
pub open spec fn modifiers(
    line: int,
    name: Seq<char>,
    mods: Seq<Seq<char>>,
    i: int,
    not_null: bool,
    primary_key: bool,
) -> Result<(bool, bool), Fault>
    decreases mods.len() - i,
{
    if i >= mods.len() {
        Ok((not_null, primary_key))
    } else if mods[i] == "not"@ && i + 1 < mods.len() && mods[i + 1] == "null"@ {
        modifiers(line, name, mods, i + 2, true, primary_key)
    } else if mods[i] == "primary"@ && i + 1 < mods.len() && mods[i + 1] == "key"@ {
        modifiers(line, name, mods, i + 2, not_null, true)
    } else {
        fault(
            line,
            "column "@ + quoted(name) + ": unsupported modifier "@ + quoted(mods[i]),
        )
    }
}

pub open spec fn without_comma(code: Seq<char>) -> Seq<char> {
    if code.len() > 0 && code.last() == ',' {
        code.drop_last()
    } else {
        code
    }
}

pub open spec fn has_column(columns: Seq<ColumnView>, name: Seq<char>) -> bool {
    exists|i: int| 0 <= i < columns.len() && (#[trigger] columns[i]).name == name
}

pub open spec fn lowered_words(w: Seq<Seq<char>>) -> Seq<Seq<char>> {
    w.map_values(|t: Seq<char>| lowered_all(t))
}

/// The line that declares a column.
pub open spec fn column(
    line: int,
    columns: Seq<ColumnView>,
    code: Seq<char>,
    comment: Seq<char>,
) -> Result<ColumnView, Fault> {
    let w = words(without_comma(code));
    if w.len() == 0 {
        fault(line, "empty column declaration"@)
    } else if !identifier(w[0]) {
        fault(line, "column name "@ + quoted(w[0]) + " must be lower_snake_case ascii"@)
    } else if has_column(columns, w[0]) {
        fault(line, "duplicate column "@ + quoted(w[0]))
    } else if w.len() == 1 {
        fault(line, "column "@ + quoted(w[0]) + " is missing a type"@)
    } else {
        match fixed_width(line, comment) {
            Err(e) => Err(e),
            Ok(fixed) => match trigram_index(line, comment) {
                Err(e) => Err(e),
                Ok(trigram) => match column_type(line, w[0], w[1], fixed, trigram) {
                    Err(e) => Err(e),
                    Ok(ty) => match modifiers(
                        line,
                        w[0],
                        lowered_words(w.skip(2)),
                        0,
                        false,
                        false,
                    ) {
                        Err(e) => Err(e),
                        Ok((not_null, primary_key)) => if !not_null {
                            fault(
                                line,
                                "column "@ + quoted(w[0])
                                    + " must be declared NOT NULL: v1 has no null bitmap, so nullable columns cannot be represented"@,
                            )
                        } else {
                            Ok(ColumnView { name: w[0], ty, primary_key, trigram })
                        },
                    },
                },
            },
        }
    }
}

// ---- The whole text ----

/// How far the text has been read.
pub enum Reading {
    Start,
    Columns(SchemaView),
    Closed(SchemaView),
}

/// Reading one more line.
pub open spec fn read_line(at: Reading, line: int, raw: Seq<char>) -> Result<Reading, Fault> {
    let code = line_code(raw);
    if code.len() == 0 {
        Ok(at)
    } else {
        match at {
            Reading::Closed(_) => fault(
                line,
                "unexpected content after ');': "@ + quoted(code),
            ),
            Reading::Start => match header(line, code) {
                Err(e) => Err(e),
                Ok(table) => Ok(Reading::Columns(SchemaView { table, columns: Seq::empty() })),
            },
            Reading::Columns(s) => if code == ")"@ || code == ");"@ {
                Ok(Reading::Closed(s))
            } else {
                match column(line, s.columns, code, line_comment(raw)) {
                    Err(e) => Err(e),
                    Ok(c) => Ok(Reading::Columns(SchemaView { columns: s.columns.push(c), ..s })),
                }
            },
        }
    }
}

/// Reading the first `n` lines.
pub open spec fn read_lines(all: Seq<Seq<char>>, n: int) -> Result<Reading, Fault>
    decreases n,
{
    if n <= 0 {
        Ok(Reading::Start)
    } else {
        match read_lines(all, n - 1) {
            Err(e) => Err(e),
            Ok(at) => read_line(at, n, all[n - 1]),
        }
    }
}

/// Primary keys among the first `n` columns.
pub open spec fn key_count(columns: Seq<ColumnView>, n: int) -> nat
    decreases n,
{
    if n <= 0 {
        0
    } else {
        key_count(columns, n - 1) + if columns[n - 1].primary_key {
            1nat
        } else {
            0
        }
    }
}

/// What must hold of the whole.
pub open spec fn complete(at: Reading) -> Result<SchemaView, Fault> {
    match at {
        Reading::Start => fault(0, "no CREATE TABLE statement found"@),
        Reading::Columns(_) => fault(0, "CREATE TABLE was never closed with ');'"@),
        Reading::Closed(s) => {
            let n = key_count(s.columns, s.columns.len() as int);
            let table = "table "@ + quoted(s.table);
            if s.columns.len() == 0 {
                fault(0, table + " has no columns"@)
            } else if n != 1 {
                fault(
                    0,
                    table + " needs exactly one PRIMARY KEY column, found "@ + decimal(n),
                )
            } else if !s.columns[0].primary_key {
                fault(
                    0,
                    table
                        + ": the PRIMARY KEY must be the first column (the engine reads the key at offset 0)"@,
                )
            } else if s.columns[0].ty != ColType::BigInt {
                fault(0, table + ": the PRIMARY KEY must be BIGINT in v1"@)
            } else {
                Ok(s)
            }
        },
    }
}

/// What a schema text means.
pub open spec fn schema_of(sql: Seq<char>) -> Result<SchemaView, Fault> {
    let all = lines(sql);
    match read_lines(all, all.len() as int) {
        Err(e) => Err(e),
        Ok(at) => complete(at),
    }
}

// ---- Reading it ----

pub(crate) fn err(line: usize, msg: String) -> (e: ParseError)
    ensures
        e@ == (Fault { line: line as int, msg: msg@ }),
{
    ParseError { line, msg }
}

fn own(s: &str) -> (o: String)
    ensures
        o@ == s@,
{
    s.to_owned()
}

/// A line's code and comment.
fn split_line<'a>(raw: &'a [char]) -> (out: (&'a [char], &'a [char]))
    ensures
        out.0@ == line_code(raw@),
        out.1@ == line_comment(raw@),
{
    proof {
        reveal_strlit("--");
    }
    match find(raw, "--") {
        Some(i) => {
            let code = trim(slice_subrange(raw, 0, i));
            let comment = trim(slice_subrange(raw, i + 2, raw.len()));
            assert(raw@.subrange(0, i as int) =~= raw@.take(i as int));
            assert(raw@.subrange(i + 2, raw@.len() as int) =~= raw@.skip(i + 2));
            (code, comment)
        },
        None => {
            let comment = slice_subrange(raw, 0, 0);
            assert(comment@ =~= Seq::empty());
            (trim(raw), comment)
        },
    }
}

fn parse_header(line: usize, code: &[char]) -> (res: Result<Vec<char>, ParseError>)
    ensures
        match res {
            Ok(t) => header(line as int, code@) == Ok::<Seq<char>, Fault>(t@),
            Err(e) => header(line as int, code@) == Err::<Seq<char>, Fault>(e@),
        },
{
    let w = split_words(code);
    let ghost ws = texts(w@);
    if w.len() != 4 {
        return Err(
            err(
                line,
                cat2("expected 'CREATE TABLE <name> (' on one line, found ", quote_chars(code).as_str()),
            ),
        );
    }
    assert(ws[0] == w@[0]@ && ws[1] == w@[1]@ && ws[2] == w@[2]@ && ws[3] == w@[3]@);
    if !spells(lower(w[0].as_slice()).as_slice(), "create") || !spells(
        lower(w[1].as_slice()).as_slice(),
        "table",
    ) || !spells(w[3].as_slice(), "(") {
        return Err(
            err(
                line,
                cat2("expected 'CREATE TABLE <name> (', found ", quote_chars(code).as_str()),
            ),
        );
    }
    if !is_ident(w[2].as_slice()) {
        return Err(
            err(
                line,
                cat3(
                    "table name ",
                    quote_chars(w[2].as_slice()).as_str(),
                    " must be lower_snake_case ascii",
                ),
            ),
        );
    }
    Ok(copy_of(w[2].as_slice()))
}

/// The part of a comment in the brackets of an annotation: where it starts and
/// ends. The inner `None` is a bracket that is never closed.
fn find_bracketed(comment: &[char], key: &str) -> (out: Option<Option<(usize, usize)>>)
    ensures
        match out {
            None => bracketed(comment@, key@) is None,
            Some(None) => bracketed(comment@, key@) == Some(None::<Seq<char>>),
            Some(Some((a, b))) => a <= b <= comment@.len() && bracketed(comment@, key@) == Some(
                Some(comment@.subrange(a as int, b as int)),
            ),
        },
{
    let n: usize = chars_of(key).len();
    match find(comment, key) {
        None => None,
        Some(i) => {
            let rest = slice_subrange(comment, i + n, comment.len());
            assert(rest@ =~= comment@.skip(i + key@.len()));
            match index_of(rest, ')', 0) {
                None => Some(None),
                Some(end) => {
                    assert(rest@.take(end as int) =~= comment@.subrange(i + n, i + n + end));
                    Some(Some((i + n, i + n + end)))
                },
            }
        },
    }
}

fn parse_fixed_annotation(comment: &[char], line: usize) -> (res: Result<Option<u32>, ParseError>)
    ensures
        match res {
            Ok(n) => fixed_width(line as int, comment@) == Ok::<Option<u32>, Fault>(n),
            Err(e) => fixed_width(line as int, comment@) == Err::<Option<u32>, Fault>(e@),
        },
{
    match find_bracketed(comment, "@fixed(") {
        None => {
            if find(comment, "@index(").is_none() && index_of(comment, '@', 0).is_some() {
                return Err(
                    err(
                        line,
                        cat3(
                            "unrecognized annotation in comment ",
                            quote_chars(comment).as_str(),
                            "; v1 knows @fixed(n)",
                        ),
                    ),
                );
            }
            Ok(None)
        },
        Some(None) => Err(err(line, own("@fixed( is missing its closing ')'"))),
        Some(Some((a, b))) => {
            let inner = slice_subrange(comment, a, b);
            match parse_number(trim(inner)) {
                Some(n) => Ok(Some(n)),
                None => Err(
                    err(
                        line,
                        cat3("@fixed(", string_of(inner).as_str(), ") is not a number"),
                    ),
                ),
            }
        },
    }
}

fn parse_index_annotation(comment: &[char], line: usize) -> (res: Result<bool, ParseError>)
    ensures
        match res {
            Ok(yes) => trigram_index(line as int, comment@) == Ok::<bool, Fault>(yes),
            Err(e) => trigram_index(line as int, comment@) == Err::<bool, Fault>(e@),
        },
{
    match find_bracketed(comment, "@index(") {
        None => Ok(false),
        Some(None) => Err(err(line, own("@index( is missing its closing ')'"))),
        Some(Some((a, b))) => {
            let inner = slice_subrange(comment, a, b);
            if spells(trim(inner), "trigram") {
                Ok(true)
            } else {
                Err(
                    err(
                        line,
                        cat3(
                            "@index(",
                            string_of(inner).as_str(),
                            ") is not a v1 index method; v1 knows trigram",
                        ),
                    ),
                )
            }
        },
    }
}

fn parse_type(line: usize, name: &[char], word: &[char], fixed: Option<u32>, trigram: bool) -> (res:
    Result<ColType, ParseError>)
    ensures
        match res {
            Ok(ty) => column_type(line as int, name@, word@, fixed, trigram) == Ok::<
                ColType,
                Fault,
            >(ty),
            Err(e) => column_type(line as int, name@, word@, fixed, trigram) == Err::<
                ColType,
                Fault,
            >(e@),
        },
{
    let quoted_name = quote_chars(name);
    let lowered = lower(word);
    if spells(lowered.as_slice(), "bigint") {
        if fixed.is_some() {
            return Err(
                err(
                    line,
                    cat3(
                        "column ",
                        quoted_name.as_str(),
                        ": @fixed(n) applies to BYTEA, not BIGINT",
                    ),
                ),
            );
        }
        if trigram {
            return Err(
                err(
                    line,
                    cat3(
                        "column ",
                        quoted_name.as_str(),
                        ": @index(trigram) applies to BYTEA, not BIGINT",
                    ),
                ),
            );
        }
        return Ok(ColType::BigInt);
    }
    if spells(lowered.as_slice(), "bytea") {
        return match fixed {
            None => Err(
                err(
                    line,
                    cat3(
                        "column ",
                        quoted_name.as_str(),
                        ": BYTEA needs a width annotation, e.g. 'value BYTEA NOT NULL -- @fixed(16)' (v1 stores fixed-width slots; varlen spill lands with the blob zone)",
                    ),
                ),
            ),
            Some(n) => {
                if n == 0 || n > 256 {
                    let mut msg = cat3("column ", quoted_name.as_str(), ": @fixed(");
                    push_decimal(&mut msg, n as usize);
                    msg.append(
                        ") out of range; row fields are 1..=256 bytes (larger values belong in the blob zone)",
                    );
                    Err(err(line, msg))
                } else {
                    Ok(ColType::FixedBytes(n))
                }
            },
        };
    }
    Err(
        err(
            line,
            cat5(
                "column ",
                quoted_name.as_str(),
                ": unsupported type ",
                quote_chars(word).as_str(),
                "; v1 supports BIGINT and BYTEA -- @fixed(n)",
            ),
        ),
    )
}

fn parse_modifiers(line: usize, name: &[char], w: &Vec<Vec<char>>) -> (res: Result<
    (bool, bool),
    ParseError,
>)
    requires
        w@.len() >= 2,
    ensures
        ({
            let mods = lowered_words(texts(w@).skip(2));
            match res {
                Ok(flags) => modifiers(line as int, name@, mods, 0, false, false) == Ok::<
                    (bool, bool),
                    Fault,
                >(flags),
                Err(e) => modifiers(line as int, name@, mods, 0, false, false) == Err::<
                    (bool, bool),
                    Fault,
                >(e@),
            }
        }),
{
    let ghost mods = lowered_words(texts(w@).skip(2));
    let mut not_null: bool = false;
    let mut primary_key: bool = false;
    let mut i: usize = 2;
    while i < w.len()
        invariant
            2 <= i <= w.len(),
            mods == lowered_words(texts(w@).skip(2)),
            modifiers(line as int, name@, mods, 0, false, false) == modifiers(
                line as int,
                name@,
                mods,
                i - 2,
                not_null,
                primary_key,
            ),
        decreases w@.len() - i,
    {
        let word = lower(w[i].as_slice());
        assert(mods[i - 2] == word@);
        let next: Vec<char> = if i + 1 < w.len() {
            lower(w[i + 1].as_slice())
        } else {
            Vec::new()
        };
        proof {
            reveal_strlit("null");
            reveal_strlit("key");
            assert("null"@.len() == 4);
            assert("key"@.len() == 3);
            if i + 1 < w@.len() {
                assert(mods[i - 1] == next@);
            } else {
                assert(next@.len() == 0);
            }
        }
        if spells(word.as_slice(), "not") && spells(next.as_slice(), "null") {
            not_null = true;
            i = i + 2;
        } else if spells(word.as_slice(), "primary") && spells(next.as_slice(), "key") {
            primary_key = true;
            i = i + 2;
        } else {
            let mut msg = cat3("column ", quote_chars(name).as_str(), ": unsupported modifier ");
            msg.append(quote_chars(word.as_slice()).as_str());
            return Err(err(line, msg));
        }
    }
    Ok((not_null, primary_key))
}

fn is_declared(columns: &Vec<Column>, name: &[char]) -> (yes: bool)
    ensures
        yes == has_column(columns_view(columns@), name@),
{
    let mut i: usize = 0;
    while i < columns.len()
        invariant
            i <= columns@.len(),
            forall|j: int|
                0 <= j < i ==> (#[trigger] columns_view(columns@)[j]).name != name@,
        decreases columns@.len() - i,
    {
        if spells(name, columns[i].name.as_str()) {
            assert(columns_view(columns@)[i as int].name == name@);
            return true;
        }
        i = i + 1;
    }
    false
}

#[verifier::rlimit(40)]
fn parse_column(line: usize, columns: &Vec<Column>, code: &[char], comment: &[char]) -> (res:
    Result<Column, ParseError>)
    ensures
        ({
            let spec = column(line as int, columns_view(columns@), code@, comment@);
            match res {
                Ok(c) => spec == Ok::<ColumnView, Fault>(c@),
                Err(e) => spec == Err::<ColumnView, Fault>(e@),
            }
        }),
{
    let decl = if code.len() > 0 && code[code.len() - 1] == ',' {
        slice_subrange(code, 0, code.len() - 1)
    } else {
        code
    };
    assert(decl@ =~= without_comma(code@));
    let w = split_words(decl);
    let ghost ws = texts(w@);
    if w.len() == 0 {
        return Err(err(line, own("empty column declaration")));
    }
    let name = w[0].as_slice();
    assert(ws[0] == name@);
    if !is_ident(name) {
        return Err(
            err(
                line,
                cat3(
                    "column name ",
                    quote_chars(name).as_str(),
                    " must be lower_snake_case ascii",
                ),
            ),
        );
    }
    if is_declared(columns, name) {
        return Err(err(line, cat2("duplicate column ", quote_chars(name).as_str())));
    }
    if w.len() == 1 {
        return Err(
            err(line, cat3("column ", quote_chars(name).as_str(), " is missing a type")),
        );
    }
    assert(ws[1] == w@[1]@);
    let fixed: Option<u32> = match parse_fixed_annotation(comment, line) {
        Ok(fixed) => fixed,
        Err(e) => {
            return Err(e);
        },
    };
    let trigram: bool = match parse_index_annotation(comment, line) {
        Ok(trigram) => trigram,
        Err(e) => {
            return Err(e);
        },
    };
    let ty = match parse_type(line, name, w[1].as_slice(), fixed, trigram) {
        Ok(ty) => ty,
        Err(e) => {
            return Err(e);
        },
    };
    let (not_null, primary_key) = match parse_modifiers(line, name, &w) {
        Ok(flags) => flags,
        Err(e) => {
            return Err(e);
        },
    };
    if !not_null {
        return Err(
            err(
                line,
                cat3(
                    "column ",
                    quote_chars(name).as_str(),
                    " must be declared NOT NULL: v1 has no null bitmap, so nullable columns cannot be represented",
                ),
            ),
        );
    }
    Ok(Column { name: string_of(name), ty, primary_key, trigram })
}

/// How far the text has been read, and what was found.
struct Progress {
    table: Option<Vec<char>>,
    columns: Vec<Column>,
    closed: bool,
}

impl Progress {
    spec fn view(&self) -> Reading {
        match self.table {
            None => Reading::Start,
            Some(table) => {
                let s = SchemaView { table: table@, columns: columns_view(self.columns@) };
                if self.closed {
                    Reading::Closed(s)
                } else {
                    Reading::Columns(s)
                }
            },
        }
    }

    spec fn ok(&self) -> bool {
        self.table is None ==> !self.closed && self.columns@.len() == 0
    }

    #[verifier::rlimit(40)]
    fn read(&mut self, line: usize, raw: &[char]) -> (res: Option<ParseError>)
        requires
            old(self).ok(),
        ensures
            final(self).ok(),
            match res {
                None => read_line(old(self).view(), line as int, raw@) == Ok::<Reading, Fault>(
                    final(self).view(),
                ),
                Some(e) => read_line(old(self).view(), line as int, raw@) == Err::<Reading, Fault>(
                    e@,
                ),
            },
    {
        proof {
            reveal_strlit(")");
            reveal_strlit(");");
        }
        let (code, comment) = split_line(raw);
        if code.len() == 0 {
            return None;
        }
        if self.closed {
            return Some(
                err(line, cat2("unexpected content after ');': ", quote_chars(code).as_str())),
            );
        }
        if self.table.is_none() {
            match parse_header(line, code) {
                Ok(table) => {
                    self.table = Some(table);
                    assert(columns_view(self.columns@) =~= Seq::empty());
                    return None;
                },
                Err(e) => {
                    return Some(e);
                },
            }
        }
        if spells(code, ")") || spells(code, ");") {
            self.closed = true;
            return None;
        }
        match parse_column(line, &self.columns, code, comment) {
            Ok(c) => {
                let ghost before = self.columns@;
                self.columns.push(c);
                assert(columns_view(self.columns@) =~= columns_view(before).push(c@));
                None
            },
            Err(e) => Some(e),
        }
    }
}

fn count_keys(columns: &Vec<Column>) -> (n: usize)
    ensures
        n == key_count(columns_view(columns@), columns@.len() as int),
{
    let mut n: usize = 0;
    let mut i: usize = 0;
    while i < columns.len()
        invariant
            i <= columns@.len(),
            n <= i,
            n == key_count(columns_view(columns@), i as int),
        decreases columns@.len() - i,
    {
        assert(columns_view(columns@)[i as int] == columns@[i as int]@);
        if columns[i].primary_key {
            n = n + 1;
        }
        i = i + 1;
    }
    n
}

/// Parse a schema: one `CREATE TABLE` with one column to a line.
#[verifier::rlimit(40)]
pub fn parse_schema(sql: &str) -> (res: Result<Schema, ParseError>)
    ensures
        match res {
            Ok(s) => schema_of(sql@) == Ok::<SchemaView, Fault>(s@),
            Err(e) => schema_of(sql@) == Err::<SchemaView, Fault>(e@),
        },
{
    let all = split_lines(chars_of(sql).as_slice());
    let ghost ls = lines(sql@);
    let mut p = Progress { table: None, columns: Vec::new(), closed: false };
    let mut i: usize = 0;
    while i < all.len()
        invariant
            i <= all@.len(),
            texts(all@) == ls,
            ls == lines(sql@),
            p.ok(),
            read_lines(ls, i as int) == Ok::<Reading, Fault>(p.view()),
        decreases all@.len() - i,
    {
        assert(ls[i as int] == all@[i as int]@);
        match p.read(i + 1, all[i].as_slice()) {
            Some(e) => {
                proof {
                    reading_stops(ls, i + 1, ls.len() as int);
                }
                return Err(e);
            },
            None => {},
        }
        i = i + 1;
    }
    let table: Vec<char> = match p.table {
        Some(table) => table,
        None => {
            return Err(err(0, own("no CREATE TABLE statement found")));
        },
    };
    if !p.closed {
        return Err(err(0, own("CREATE TABLE was never closed with ');'")));
    }
    let quoted_table = quote_chars(table.as_slice());
    let columns = p.columns;
    if columns.len() == 0 {
        return Err(err(0, cat3("table ", quoted_table.as_str(), " has no columns")));
    }
    let keys: usize = count_keys(&columns);
    assert(columns_view(columns@)[0] == columns@[0]@);
    if keys != 1 {
        let mut msg = cat3(
            "table ",
            quoted_table.as_str(),
            " needs exactly one PRIMARY KEY column, found ",
        );
        push_decimal(&mut msg, keys);
        return Err(err(0, msg));
    }
    if !columns[0].primary_key {
        return Err(
            err(
                0,
                cat3(
                    "table ",
                    quoted_table.as_str(),
                    ": the PRIMARY KEY must be the first column (the engine reads the key at offset 0)",
                ),
            ),
        );
    }
    if columns[0].ty != ColType::BigInt {
        return Err(
            err(
                0,
                cat3("table ", quoted_table.as_str(), ": the PRIMARY KEY must be BIGINT in v1"),
            ),
        );
    }
    let schema = Schema { table: string_of(table.as_slice()), columns };
    Ok(schema)
}

proof fn reading_stops(all: Seq<Seq<char>>, m: int, n: int)
    requires
        0 <= m <= n,
        read_lines(all, m) is Err,
    ensures
        read_lines(all, n) == read_lines(all, m),
    decreases n - m,
{
    if m < n {
        reading_stops(all, m, n - 1);
    }
}

} // verus!
