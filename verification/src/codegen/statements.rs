//! How the statements of the operation space are written: each as one line of
//! SQL, in the schema's own names.

use crate::codegen::laws::sound_schema;
use crate::codegen::queries::{
    insert_tokens, name_tokens, param, param_tokens, select_tokens, token_char, token_len,
    tokens_of,
};
use crate::codegen::schema::{ColumnView, SchemaView};
use crate::codegen::text::{
    decimal, decimal_spells_its_number, identifier, lowered_all, name_char, white_space,
};
use vstd::prelude::*;

verus! {

/// The first `n` columns' names, as a list.
pub open spec fn column_list(columns: Seq<ColumnView>, n: int) -> Seq<char>
    decreases n,
{
    if n <= 0 {
        Seq::empty()
    } else if n == 1 {
        columns[0].name
    } else {
        column_list(columns, n - 1) + (", "@ + columns[n - 1].name)
    }
}

/// `$1, $2, ..` up to `$n`.
pub open spec fn parameter_list(n: int) -> Seq<char>
    decreases n,
{
    if n <= 0 {
        Seq::empty()
    } else if n == 1 {
        "$1"@
    } else {
        parameter_list(n - 1) + (", $"@ + decimal(n as nat))
    }
}

/// The statement that reads a row by its key.
pub open spec fn select_statement(s: SchemaView) -> Seq<char> {
    "SELECT "@ + (column_list(s.columns, s.columns.len() as int) + (" FROM "@ + (s.table + (
    " WHERE "@ + (s.columns[0].name + " = $1;"@)))))
}

/// The statement that writes a row.
pub open spec fn insert_statement(s: SchemaView) -> Seq<char> {
    let n = s.columns.len() as int;
    "INSERT INTO "@ + (s.table + (" ("@ + (column_list(s.columns, n) + (") VALUES ("@ + (
    parameter_list(n) + ");"@)))))
}

// ---- Tokens, one by one ----

/// A word: characters that words are made of.
spec fn is_word(w: Seq<char>) -> bool {
    w.len() > 0 && forall|i: int| 0 <= i < w.len() ==> token_char(#[trigger] w[i])
}

/// Nothing that would make a word in front of it longer.
spec fn ends_word(rest: Seq<char>) -> bool {
    rest.len() == 0 || !token_char(rest[0])
}

proof fn word_is_as_long(w: Seq<char>, rest: Seq<char>)
    requires
        forall|i: int| 0 <= i < w.len() ==> token_char(#[trigger] w[i]),
        ends_word(rest),
    ensures
        token_len(w + rest) == w.len(),
    decreases w.len(),
{
    let s = w + rest;
    if w.len() > 0 {
        word_is_as_long(w.drop_first(), rest);
        assert(s.drop_first() =~= w.drop_first() + rest);
        assert(s[0] == w[0]);
    } else {
        assert(s =~= rest);
    }
}

proof fn a_word(w: Seq<char>, rest: Seq<char>)
    requires
        is_word(w),
        ends_word(rest),
    ensures
        tokens_of(w + rest) == seq![lowered_all(w)] + tokens_of(rest),
{
    let s = w + rest;
    word_is_as_long(w, rest);
    assert(s[0] == w[0]);
    assert(s.take(w.len() as int) =~= w);
    assert(s.skip(w.len() as int) =~= rest);
}

proof fn a_space(rest: Seq<char>)
    ensures
        tokens_of(seq![' '] + rest) == tokens_of(rest),
{
    let s = seq![' '] + rest;
    assert(s.drop_first() =~= rest);
    assert(white_space(' ') && !token_char(' '));
}

proof fn a_sign(c: char, rest: Seq<char>)
    requires
        !token_char(c),
        !white_space(c),
    ensures
        tokens_of(seq![c] + rest) == seq![seq![c]] + tokens_of(rest),
{
    let s = seq![c] + rest;
    assert(s.drop_first() =~= rest);
}

/// Names are words, in lower case already.
proof fn names_are_words(name: Seq<char>)
    requires
        identifier(name),
    ensures
        is_word(name),
        lowered_all(name) == name,
{
    assert forall|i: int| 0 <= i < name.len() implies token_char(#[trigger] name[i]) by {
        assert(name_char(name[i]));
    }
    assert forall|i: int| 0 <= i < name.len() implies #[trigger] lowered_all(name)[i]
        == name[i] by {
        assert(name_char(name[i]));
    }
    assert(lowered_all(name) =~= name);
}

proof fn params_are_words(n: nat)
    ensures
        is_word("$"@ + decimal(n)),
        lowered_all("$"@ + decimal(n)) == "$"@ + decimal(n),
{
    reveal_strlit("$");
    let w = "$"@ + decimal(n);
    decimal_spells_its_number(n);
    assert forall|i: int| 0 <= i < w.len() implies token_char(#[trigger] w[i])
        && lowered_all(w)[i] == w[i] by {
        if i > 0 {
            assert(w[i] == decimal(n)[i - 1]);
        }
    }
    assert(lowered_all(w) =~= w);
}

proof fn columns_are_tokens(columns: Seq<ColumnView>, n: int, rest: Seq<char>)
    requires
        1 <= n <= columns.len(),
        forall|i: int| 0 <= i < columns.len() ==> identifier((#[trigger] columns[i]).name),
        ends_word(rest),
    ensures
        tokens_of(column_list(columns, n) + rest) == name_tokens(columns, n) + tokens_of(rest),
    decreases n,
{
    reveal_strlit(", ");
    reveal_strlit(",");
    let name = columns[n - 1].name;
    names_are_words(name);
    a_word(name, rest);
    if n > 1 {
        let tail = ", "@ + name + rest;
        let more = seq![' '] + (name + rest);
        assert(tail =~= seq![','] + more);
        a_sign(',', more);
        a_space(name + rest);
        assert(","@ =~= seq![',']);
        columns_are_tokens(columns, n - 1, tail);
        assert(column_list(columns, n) + rest =~= column_list(columns, n - 1) + tail);
        assert(name_tokens(columns, n) + tokens_of(rest) =~= name_tokens(columns, n - 1)
            + tokens_of(tail));
    }
}

proof fn parameters_are_tokens(n: int, rest: Seq<char>)
    requires
        1 <= n,
        ends_word(rest),
    ensures
        tokens_of(parameter_list(n) + rest) == param_tokens(n) + tokens_of(rest),
    decreases n,
{
    reveal_strlit(", $");
    reveal_strlit(",");
    reveal_strlit("$");
    reveal_strlit("$1");
    let w = "$"@ + decimal(n as nat);
    params_are_words(n as nat);
    a_word(w, rest);
    if n > 1 {
        let tail = ", $"@ + decimal(n as nat) + rest;
        let more = seq![' '] + (w + rest);
        assert(tail =~= seq![','] + more);
        a_sign(',', more);
        a_space(w + rest);
        assert(","@ =~= seq![',']);
        parameters_are_tokens(n - 1, tail);
        assert(parameter_list(n) + rest =~= parameter_list(n - 1) + tail);
        assert(param_tokens(n) + tokens_of(rest) =~= param_tokens(n - 1) + tokens_of(tail));
    } else {
        assert("$1"@ =~= param(1)) by {
            assert(decimal(1) =~= seq!['1']);
        }
    }
}

/// A keyword in capitals, with a space behind it.
proof fn a_keyword(upper: Seq<char>, low: Seq<char>, rest: Seq<char>)
    requires
        is_word(upper),
        lowered_all(upper) == low,
    ensures
        tokens_of(upper + (seq![' '] + rest)) == seq![low] + tokens_of(rest),
{
    a_word(upper, seq![' '] + rest);
    a_space(rest);
}

/// The statement that is accepted as a read by key is `SELECT`, all columns in
/// the schema's order, `FROM` the table, `WHERE` the key is the one parameter.
#[verifier::spinoff_prover]
pub proof fn a_select_is_written_so(s: SchemaView)
    requires
        sound_schema(s),
    ensures
        tokens_of(select_statement(s)) == select_tokens(s),
{
    let n = s.columns.len() as int;
    let key = s.columns[0].name;
    reveal_strlit("SELECT ");
    reveal_strlit("select");
    reveal_strlit(" FROM ");
    reveal_strlit("from");
    reveal_strlit(" WHERE ");
    reveal_strlit("where");
    reveal_strlit(" = $1;");
    reveal_strlit("=");
    reveal_strlit("$1");
    reveal_strlit(";");
    let sel = seq!['S', 'E', 'L', 'E', 'C', 'T'];
    let fro = seq!['F', 'R', 'O', 'M'];
    let whe = seq!['W', 'H', 'E', 'R', 'E'];
    let one = seq!['$', '1'];
    assert(lowered_all(sel) =~= "select"@);
    assert(lowered_all(fro) =~= "from"@);
    assert(lowered_all(whe) =~= "where"@);
    assert(lowered_all(one) =~= "$1"@);
    assert(is_word(sel) && is_word(fro) && is_word(whe) && is_word(one));

    let semi = seq![';'] + Seq::<char>::empty();
    a_sign(';', Seq::empty());
    assert(tokens_of(Seq::<char>::empty()) =~= Seq::<Seq<char>>::empty());
    a_word(one, semi);
    a_space(one + semi);
    a_sign('=', seq![' '] + (one + semi));
    let eq = seq!['='] + (seq![' '] + (one + semi));
    a_space(eq);
    let r5 = seq![' '] + eq;
    assert(" = $1;"@ =~= r5);
    names_are_words(key);
    a_word(key, r5);
    a_keyword(whe, "where"@, key + r5);
    let r4 = whe + (seq![' '] + (key + r5));
    a_space(r4);
    let r3 = " WHERE "@ + (key + r5);
    assert(r3 =~= seq![' '] + r4);
    names_are_words(s.table);
    a_word(s.table, r3);
    a_keyword(fro, "from"@, s.table + r3);
    let r2 = fro + (seq![' '] + (s.table + r3));
    a_space(r2);
    let r1 = " FROM "@ + (s.table + r3);
    assert(r1 =~= seq![' '] + r2);
    columns_are_tokens(s.columns, n, r1);
    let r0 = column_list(s.columns, n) + r1;
    a_keyword(sel, "select"@, r0);
    assert(select_statement(s) =~= sel + (seq![' '] + r0));
    assert("="@ =~= seq!['=']);
    assert(";"@ =~= seq![';']);
    assert(tokens_of(select_statement(s)) =~= select_tokens(s));
}

/// The statement that is accepted as a write is `INSERT INTO` the table, all
/// columns in the schema's order, `VALUES` as many parameters, in order.
#[verifier::spinoff_prover]
pub proof fn an_insert_is_written_so(s: SchemaView)
    requires
        sound_schema(s),
    ensures
        tokens_of(insert_statement(s)) == insert_tokens(s),
{
    let n = s.columns.len() as int;
    reveal_strlit("INSERT INTO ");
    reveal_strlit("insert");
    reveal_strlit("into");
    reveal_strlit(" (");
    reveal_strlit("(");
    reveal_strlit(") VALUES (");
    reveal_strlit(")");
    reveal_strlit("values");
    reveal_strlit(");");
    reveal_strlit(";");
    let ins = seq!['I', 'N', 'S', 'E', 'R', 'T'];
    let int_ = seq!['I', 'N', 'T', 'O'];
    let val = seq!['V', 'A', 'L', 'U', 'E', 'S'];
    assert(lowered_all(ins) =~= "insert"@);
    assert(lowered_all(int_) =~= "into"@);
    assert(lowered_all(val) =~= "values"@);
    assert(is_word(ins) && is_word(int_) && is_word(val));

    let semi = seq![';'] + Seq::<char>::empty();
    a_sign(';', Seq::empty());
    assert(tokens_of(Seq::<char>::empty()) =~= Seq::<Seq<char>>::empty());
    a_sign(')', semi);
    let r6 = ");"@;
    assert(r6 =~= seq![')'] + semi);
    parameters_are_tokens(n, r6);
    let params = parameter_list(n) + r6;
    a_sign('(', params);
    let open = seq!['('] + params;
    a_keyword(val, "values"@, open);
    let r5 = val + (seq![' '] + open);
    a_space(r5);
    a_sign(')', seq![' '] + r5);
    let r4 = ") VALUES ("@ + params;
    assert(r4 =~= seq![')'] + (seq![' '] + r5));
    columns_are_tokens(s.columns, n, r4);
    let list = column_list(s.columns, n) + r4;
    a_sign('(', list);
    let r3 = seq!['('] + list;
    a_space(r3);
    let r2 = " ("@ + list;
    assert(r2 =~= seq![' '] + r3);
    names_are_words(s.table);
    a_word(s.table, r2);
    let r1 = s.table + r2;
    a_keyword(int_, "into"@, r1);
    let r0 = int_ + (seq![' '] + r1);
    a_keyword(ins, "insert"@, r0);
    assert(insert_statement(s) =~= ins + (seq![' '] + r0));
    assert("("@ =~= seq!['(']);
    assert(")"@ =~= seq![')']);
    assert(";"@ =~= seq![';']);
    assert(tokens_of(insert_statement(s)) =~= insert_tokens(s));
}

} // verus!
