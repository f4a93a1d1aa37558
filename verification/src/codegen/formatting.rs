//! How a schema is written does not matter, only what it says.

use crate::codegen::emit::hash_of;
use crate::codegen::schema::{
    column, column_type, fixed_width, header, line_code, line_comment, lowered_words, modifiers,
    read_line, read_lines, schema_of, trigram_index, without_comma, ColType, ColumnView, Fault,
    Reading,
};
use crate::codegen::text::{lines, words};
use vstd::prelude::*;

verus! {

/// A result without what went wrong.
spec fn got<T>(r: Result<T, Fault>) -> Option<T> {
    match r {
        Ok(t) => Some(t),
        Err(_) => None,
    }
}

/// What a line's comment asks for, if it can be read: a width and an index.
pub open spec fn annotated(raw: Seq<char>) -> Option<(Option<u32>, bool)> {
    match (fixed_width(0, line_comment(raw)), trigram_index(0, line_comment(raw))) {
        (Ok(fixed), Ok(trigram)) => Some((fixed, trigram)),
        _ => None,
    }
}

/// Two lines of code that say the same: word for word, with or without more
/// space between the words, and with annotations that ask for the same.
pub open spec fn says_the_same(x: Seq<char>, y: Seq<char>) -> bool {
    let c = line_code(x);
    let d = line_code(y);
    &&& words(c) == words(d)
    &&& words(without_comma(c)) == words(without_comma(d))
    &&& (c == ")"@ || c == ");"@) == (d == ")"@ || d == ");"@)
    &&& annotated(x) == annotated(y)
}

/// The lines that hold code.
pub open spec fn said(all: Seq<Seq<char>>) -> Seq<Seq<char>>
    decreases all.len(),
{
    if all.len() == 0 {
        Seq::empty()
    } else if line_code(all.last()).len() == 0 {
        said(all.drop_last())
    } else {
        said(all.drop_last()).push(all.last())
    }
}

/// Two texts that say the same, line of code for line of code. Blank lines,
/// comment lines, indentation and what else stands in comments may differ.
pub open spec fn same_text(a: Seq<char>, b: Seq<char>) -> bool {
    let x = said(lines(a));
    let y = said(lines(b));
    &&& x.len() == y.len()
    &&& forall|i: int| 0 <= i < x.len() ==> says_the_same(#[trigger] x[i], y[i])
}

/// Reading lines of code only, wherever they stand.
spec fn reached(list: Seq<Seq<char>>) -> Option<Reading>
    decreases list.len(),
{
    if list.len() == 0 {
        Some(Reading::Start)
    } else {
        match reached(list.drop_last()) {
            None => None,
            Some(at) => got(read_line(at, 1, list.last())),
        }
    }
}

proof fn modifiers_anywhere(
    m: int,
    n: int,
    name: Seq<char>,
    mods: Seq<Seq<char>>,
    i: int,
    not_null: bool,
    primary_key: bool,
)
    ensures
        got(modifiers(m, name, mods, i, not_null, primary_key)) == got(
            modifiers(n, name, mods, i, not_null, primary_key),
        ),
    decreases mods.len() - i,
{
    if i + 1 < mods.len() {
        modifiers_anywhere(m, n, name, mods, i + 2, true, primary_key);
        modifiers_anywhere(m, n, name, mods, i + 2, not_null, true);
    }
}

/// A column is what its words and its annotations say.
proof fn columns_say_the_same(
    m: int,
    n: int,
    columns: Seq<ColumnView>,
    x: Seq<char>,
    y: Seq<char>,
)
    requires
        says_the_same(x, y),
    ensures
        got(column(m, columns, line_code(x), line_comment(x))) == got(
            column(n, columns, line_code(y), line_comment(y)),
        ),
{
    let w = words(without_comma(line_code(x)));
    let mods = lowered_words(w.skip(2));
    modifiers_anywhere(m, n, w[0], mods, 0, false, false);
    let fx = fixed_width(m, line_comment(x));
    let fy = fixed_width(n, line_comment(y));
    let tx = trigram_index(m, line_comment(x));
    let ty = trigram_index(n, line_comment(y));
    assert(got(fx) == got(fixed_width(0, line_comment(x))));
    assert(got(fy) == got(fixed_width(0, line_comment(y))));
    assert(got(tx) == got(trigram_index(0, line_comment(x))));
    assert(got(ty) == got(trigram_index(0, line_comment(y))));
    assert forall|fixed: Option<u32>, trigram: bool| got(
        #[trigger] column_type(m, w[0], w[1], fixed, trigram),
    ) == got(column_type(n, w[0], w[1], fixed, trigram)) by {}
    if fx is Ok && tx is Ok {
        let a: Result<ColType, Fault> = column_type(m, w[0], w[1], fx->Ok_0, tx->Ok_0);
        let b: Result<ColType, Fault> = column_type(n, w[0], w[1], fx->Ok_0, tx->Ok_0);
        assert(got(a) == got(b));
    }
}

/// Lines that say the same are read the same.
proof fn lines_read_the_same(at: Reading, m: int, n: int, x: Seq<char>, y: Seq<char>)
    requires
        says_the_same(x, y),
        line_code(x).len() > 0,
        line_code(y).len() > 0,
    ensures
        got(read_line(at, m, x)) == got(read_line(at, n, y)),
{
    assert(got(header(m, line_code(x))) == got(header(n, line_code(y))));
    if let Reading::Columns(s) = at {
        columns_say_the_same(m, n, s.columns, x, y);
    }
}

/// Lines without code do not count.
proof fn only_code_counts(all: Seq<Seq<char>>, n: int)
    requires
        0 <= n <= all.len(),
    ensures
        got(read_lines(all, n)) == reached(said(all.take(n))),
    decreases n,
{
    if n > 0 {
        only_code_counts(all, n - 1);
        let front = all.take(n);
        let raw = all[n - 1];
        assert(front.drop_last() =~= all.take(n - 1));
        assert(front.last() == raw);
        if line_code(raw).len() > 0 {
            let list = said(all.take(n - 1)).push(raw);
            assert(list.drop_last() =~= said(all.take(n - 1)));
            if let Ok(at) = read_lines(all, n - 1) {
                lines_read_the_same(at, n, 1, raw, raw);
            }
        }
    } else {
        assert(all.take(0) =~= Seq::<Seq<char>>::empty());
    }
}

proof fn said_is_code(all: Seq<Seq<char>>)
    ensures
        forall|i: int| 0 <= i < said(all).len() ==> line_code(#[trigger] said(all)[i]).len() > 0,
    decreases all.len(),
{
    if all.len() > 0 {
        said_is_code(all.drop_last());
        let front = said(all.drop_last());
        assert forall|i: int| 0 <= i < said(all).len() implies line_code(
            #[trigger] said(all)[i],
        ).len() > 0 by {
            if i < front.len() {
                assert(said(all)[i] == front[i]);
            }
        }
    }
}

proof fn reached_alike(x: Seq<Seq<char>>, y: Seq<Seq<char>>)
    requires
        x.len() == y.len(),
        forall|i: int| 0 <= i < x.len() ==> says_the_same(#[trigger] x[i], y[i]),
        forall|i: int| 0 <= i < x.len() ==> line_code(#[trigger] x[i]).len() > 0,
        forall|i: int| 0 <= i < y.len() ==> line_code(#[trigger] y[i]).len() > 0,
    ensures
        reached(x) == reached(y),
    decreases x.len(),
{
    if x.len() > 0 {
        let n = x.len() - 1;
        assert forall|i: int| 0 <= i < n implies says_the_same(
            #[trigger] x.drop_last()[i],
            y.drop_last()[i],
        ) by {
            assert(says_the_same(x[i], y[i]));
        }
        reached_alike(x.drop_last(), y.drop_last());
        assert(says_the_same(x[n], y[n]));
        if let Some(at) = reached(x.drop_last()) {
            lines_read_the_same(at, 1, 1, x[n], y[n]);
        }
    }
}

/// Two texts that say the same are both accepted, as one and the same schema
/// with one and the same hash, or both refused: formatting does not matter.
pub proof fn formatting_does_not_matter(a: Seq<char>, b: Seq<char>)
    requires
        same_text(a, b),
    ensures
        schema_of(a) is Ok <==> schema_of(b) is Ok,
        schema_of(a) is Ok ==> schema_of(a) == schema_of(b) && hash_of(schema_of(a)->Ok_0)
            == hash_of(schema_of(b)->Ok_0),
{
    let x = lines(a);
    let y = lines(b);
    only_code_counts(x, x.len() as int);
    only_code_counts(y, y.len() as int);
    assert(x.take(x.len() as int) =~= x);
    assert(y.take(y.len() as int) =~= y);
    said_is_code(x);
    said_is_code(y);
    reached_alike(said(x), said(y));
}

} // verus!
