//! What a text of declared queries says, and what is made of it: every
//! annotation opens one query, and the statement behind it is what that query
//! does.

use crate::codegen::laws::distinct_queries;
use crate::codegen::queries::{
    declare_lines, has_query, insert_tokens, queries_of, query_of, select_tokens, starts_with,
    tokens_of, Declared, QueryKind, QueryShape, QueryView,
};
use crate::codegen::schema::{Fault, SchemaView};
use crate::codegen::text::{found, identifier, lines, trimmed, words};
use vstd::prelude::*;

verus! {

/// The words behind `-- name:`, if the line is an annotation.
pub open spec fn annotates(raw: Seq<char>) -> Option<Seq<Seq<char>>> {
    let code = trimmed(raw);
    let comment = trimmed(code.skip(2));
    if starts_with(code, "--"@) && starts_with(comment, "name:"@) {
        Some(words(comment.skip(5)))
    } else {
        None
    }
}

/// A line that holds a piece of a statement.
pub open spec fn is_code(raw: Seq<char>) -> bool {
    trimmed(raw).len() > 0 && !starts_with(trimmed(raw), "--"@)
}

/// An annotation's words, and the statement that follows it.
#[verifier::ext_equal]
pub struct Section {
    pub words: Seq<Seq<char>>,
    pub statement: Seq<char>,
}

/// The sections of the first `n` lines: each annotation opens one, and the code
/// up to the next belongs to it.
pub open spec fn sections(all: Seq<Seq<char>>, n: int) -> Seq<Section>
    decreases n,
{
    if n <= 0 {
        Seq::empty()
    } else {
        let before = sections(all, n - 1);
        let raw = all[n - 1];
        match annotates(raw) {
            Some(words) => before.push(Section { words, statement: Seq::empty() }),
            None => if is_code(raw) && before.len() > 0 {
                let last = before.last();
                before.drop_last().push(
                    Section { statement: last.statement + seq![' '] + trimmed(raw), ..last },
                )
            } else {
                before
            },
        }
    }
}

/// The query is what the section says: it has the name and the kind of the
/// annotation, and does what the statement does.
pub open spec fn says(section: Section, q: QueryView, s: SchemaView) -> bool {
    &&& section.words.len() == 2
    &&& section.words[0] == q.name
    &&& section.words[1] == match q.kind {
        QueryKind::One => ":one"@,
        QueryKind::Exec => ":exec"@,
    }
    &&& match q.shape {
        QueryShape::SelectByPk => q.kind == QueryKind::One && tokens_of(section.statement)
            == select_tokens(s),
        QueryShape::InsertRow => q.kind == QueryKind::Exec && tokens_of(section.statement)
            == insert_tokens(s),
    }
}

spec fn keeps_up(at: Declared, read: Seq<Section>, s: SchemaView) -> bool {
    &&& forall|i: int| 0 <= i < at.queries.len() ==> #[trigger] says(read[i], at.queries[i], s)
    &&& match at.pending {
        None => read.len() == at.queries.len(),
        Some(p) => {
            &&& read.len() == at.queries.len() + 1
            &&& read.last().statement == p.stmt
            &&& read.last().words.len() == 2
            &&& read.last().words[0] == p.name
            &&& read.last().words[1] == match p.kind {
                QueryKind::One => ":one"@,
                QueryKind::Exec => ":exec"@,
            }
        },
    }
}

#[verifier::spinoff_prover]
#[verifier::rlimit(40)]
proof fn reading_keeps_up(all: Seq<Seq<char>>, n: int, s: SchemaView)
    requires
        0 <= n <= all.len(),
    ensures
        declare_lines(all, n, s) matches Ok(at) ==> keeps_up(at, sections(all, n), s),
    decreases n,
{
    reveal_strlit("name:");
    reveal_strlit(" ");
    if n > 0 {
        reading_keeps_up(all, n - 1, s);
        if let Ok(at) = declare_lines(all, n - 1, s) {
            let before = sections(all, n - 1);
            let read = sections(all, n);
            let raw = all[n - 1];
            if let Ok(next) = declare_lines(all, n, s) {
                assert forall|i: int| 0 <= i < at.queries.len() implies #[trigger] read[i]
                    == before[i] by {}
                assert forall|i: int| 0 <= i < at.queries.len() implies #[trigger] next.queries[i]
                    == at.queries[i] by {}
                assert(" "@ =~= seq![' ']);
                assert forall|i: int| 0 <= i < next.queries.len() implies #[trigger] says(
                    read[i],
                    next.queries[i],
                    s,
                ) by {
                    if i < at.queries.len() {
                        assert(says(before[i], at.queries[i], s));
                    }
                }
            }
        }
    }
}

/// Every declared query is there, in the order of the text, and nothing else:
/// an accepted text has as many queries as annotations; each has its
/// annotation's name and kind, and does what the statement behind it does.
pub proof fn every_annotation_is_one_query(sql: Seq<char>, s: SchemaView)
    ensures
        queries_of(sql, s) matches Ok(q) ==> {
            let read = sections(lines(sql), lines(sql).len() as int);
            &&& q.len() == read.len()
            &&& forall|i: int| 0 <= i < q.len() ==> says(#[trigger] read[i], q[i], s)
        },
{
    reading_keeps_up(lines(sql), lines(sql).len() as int, s);
}

// ---- What is accepted ----

/// Is a statement still open behind the first `n` lines? An annotation opens
/// one, and a semicolon at the end of a line closes it.
pub open spec fn open_after(all: Seq<Seq<char>>, n: int) -> bool
    decreases n,
{
    if n <= 0 {
        false
    } else if annotates(all[n - 1]) is Some {
        true
    } else if is_code(all[n - 1]) {
        open_after(all, n - 1) && trimmed(all[n - 1]).last() != ';'
    } else {
        open_after(all, n - 1)
    }
}

/// Line `i` is where it may be: an annotation where no statement is open, code
/// where one is, and a comment that is no annotation anywhere.
pub open spec fn in_place(all: Seq<Seq<char>>, i: int) -> bool {
    let raw = all[i];
    let code = trimmed(raw);
    &&& annotates(raw) is Some ==> !open_after(all, i)
    &&& is_code(raw) ==> open_after(all, i)
    &&& annotates(raw) is None && starts_with(code, "--"@) ==> found(
        trimmed(code.skip(2)),
        "name:"@,
    ) is None
}

/// The sections that have been read stay as they are, but for the statement of
/// one that is still open.
proof fn sections_stay(all: Seq<Seq<char>>, n: int, m: int)
    requires
        0 <= n <= m <= all.len(),
        forall|i: int| 0 <= i < all.len() ==> #[trigger] in_place(all, i),
    ensures
        sections(all, n).len() <= sections(all, m).len(),
        open_after(all, n) ==> sections(all, n).len() > 0,
        forall|i: int|
            0 <= i < sections(all, n).len() ==> (#[trigger] sections(all, m)[i]).words == sections(
                all,
                n,
            )[i].words,
        forall|i: int|
            0 <= i < sections(all, n).len() && (i < sections(all, n).len() - 1 || !open_after(
                all,
                n,
            )) ==> #[trigger] sections(all, m)[i] == sections(all, n)[i],
        !open_after(all, n) && sections(all, m).len() == sections(all, n).len() ==> !open_after(
            all,
            m,
        ),
    decreases m,
{
    if n == m {
        if n > 0 {
            sections_stay(all, n - 1, n - 1);
            assert(in_place(all, n - 1));
        }
    } else {
        sections_stay(all, n, m - 1);
        assert(in_place(all, m - 1));
        let before = sections(all, m - 1);
        let after = sections(all, m);
        assert forall|i: int| 0 <= i < before.len() - 1 implies #[trigger] after[i]
            == before[i] by {}
        sections_stay(all, m - 1, m - 1);
    }
}

/// The lines declare these queries, and nothing besides: every line is in its
/// place, no statement is left open, and each section says its query.
pub open spec fn declares(all: Seq<Seq<char>>, q: Seq<QueryView>, s: SchemaView) -> bool {
    let read = sections(all, all.len() as int);
    &&& forall|i: int| 0 <= i < all.len() ==> #[trigger] in_place(all, i)
    &&& !open_after(all, all.len() as int)
    &&& read.len() == q.len()
    &&& forall|i: int| 0 <= i < q.len() ==> #[trigger] says(read[i], q[i], s)
    &&& forall|i: int| 0 <= i < q.len() ==> identifier((#[trigger] q[i]).name)
    &&& distinct_queries(q)
}

#[verifier::spinoff_prover]
#[verifier::rlimit(60)]
proof fn declared_so_far(all: Seq<Seq<char>>, n: int, q: Seq<QueryView>, s: SchemaView)
    requires
        0 <= n <= all.len(),
        declares(all, q, s),
    ensures
        ({
            let read = sections(all, n);
            let k = read.len() as int;
            &&& k <= q.len()
            &&& declare_lines(all, n, s) matches Ok(at) && if open_after(all, n) {
                &&& k > 0
                &&& at.queries == q.take(k - 1)
                &&& at.pending matches Some(p) && p.name == q[k - 1].name && p.kind == q[k
                    - 1].kind && p.stmt == read.last().statement
            } else {
                at.queries == q.take(k) && at.pending is None
            }
        }),
    decreases n,
{
    reveal_strlit("name:");
    reveal_strlit(" ");
    assert(" "@ =~= seq![' ']);
    let last = all.len() as int;
    let whole = sections(all, last);
    sections_stay(all, n, last);
    let read = sections(all, n);
    let k = read.len() as int;
    if n > 0 {
        declared_so_far(all, n - 1, q, s);
        sections_stay(all, n - 1, last);
        assert(in_place(all, n - 1));
        let before = sections(all, n - 1);
        let raw = all[n - 1];
        let at = declare_lines(all, n - 1, s)->Ok_0;
        if annotates(raw) is Some {
            assert(says(whole[k - 1], q[k - 1], s));
            assert(read[k - 1].words == whole[k - 1].words);
            assert(!has_query(at.queries, q[k - 1].name)) by {
                if has_query(at.queries, q[k - 1].name) {
                    let i = choose|i: int|
                        0 <= i < at.queries.len() && (#[trigger] at.queries[i]).name == q[k
                            - 1].name;
                    assert(q[i].name != q[k - 1].name);
                }
            }
            reveal_strlit(":one");
            reveal_strlit(":exec");
            assert(":one"@.len() == 4 && ":exec"@.len() == 5);
        } else if is_code(raw) {
            assert(open_after(all, n - 1));
            assert(k == before.len());
            if trimmed(raw).last() == ';' {
                assert(!open_after(all, n));
                assert(says(whole[k - 1], q[k - 1], s));
                assert(whole[k - 1] == read[k - 1]);
                assert(q.take(k) =~= q.take(k - 1).push(q[k - 1]));
                let p = at.pending->0;
                let stmt = read[k - 1].statement;
                heads_differ(s);
                assert(query_of(p.line, p.name, p.kind, stmt, s) == Ok::<QueryView, Fault>(
                    q[k - 1],
                ));
            }
        }
    } else {
        assert(q.take(0) =~= Seq::<QueryView>::empty());
    }
}

/// The two statements begin with different words.
proof fn heads_differ(s: SchemaView)
    ensures
        select_tokens(s).len() > 0,
        select_tokens(s)[0] == "select"@,
        insert_tokens(s).len() > 0,
        insert_tokens(s)[0] == "insert"@,
        "select"@ != "insert"@,
{
    reveal_strlit("select");
    reveal_strlit("insert");
    assert("select"@[0] == 's' && "insert"@[0] == 'i');
}

/// Lines that declare queries, and nothing besides, are accepted as those
/// queries.
pub proof fn what_declares_queries_is_accepted(sql: Seq<char>, q: Seq<QueryView>, s: SchemaView)
    requires
        q.len() > 0,
        declares(lines(sql), q, s),
    ensures
        queries_of(sql, s) == Ok::<Seq<QueryView>, Fault>(q),
{
    let all = lines(sql);
    declared_so_far(all, all.len() as int, q, s);
    assert(q.take(q.len() as int) =~= q);
}

// ---- Errors ----

/// Line `line` is the last annotation among the first `n` lines.
pub open spec fn opener(all: Seq<Seq<char>>, n: int, line: int) -> bool {
    &&& 1 <= line <= n
    &&& annotates(all[line - 1]) is Some
    &&& forall|i: int| line <= i < n ==> annotates(#[trigger] all[i]) is None
}

/// The line that an error speaks of when line `n` is the first that cannot be
/// read: where that line closes a statement, the annotation that opened it;
/// otherwise the line itself.
pub open spec fn blamed(all: Seq<Seq<char>>, n: int, line: int) -> bool {
    if is_code(all[n - 1]) && open_after(all, n - 1) {
        &&& trimmed(all[n - 1]).last() == ';'
        &&& opener(all, n, line)
    } else {
        line == n
    }
}

proof fn reading_stops(all: Seq<Seq<char>>, n: int, s: SchemaView)
    requires
        0 <= n <= all.len(),
    ensures
        match declare_lines(all, n, s) {
            Ok(at) => match at.pending {
                Some(p) => open_after(all, n) && opener(all, n, p.line),
                None => !open_after(all, n),
            },
            Err(f) => exists|k: int|
                {
                    &&& 1 <= k <= n
                    &&& #[trigger] blamed(all, k, f.line)
                    &&& declare_lines(all, k - 1, s) is Ok
                    &&& declare_lines(all, k, s) == declare_lines(all, n, s)
                },
        },
    decreases n,
{
    reveal_strlit("name:");
    if n > 0 {
        reading_stops(all, n - 1, s);
        if let Ok(at) = declare_lines(all, n - 1, s) {
            let raw = all[n - 1];
            if let Err(f) = declare_lines(all, n, s) {
                if is_code(raw) {
                    if let Some(p) = at.pending {
                        assert(annotates(raw) is None);
                        assert(opener(all, n, p.line));
                    }
                }
                assert(blamed(all, n, f.line));
            } else if annotates(raw) is Some {
                assert(opener(all, n, n));
            } else if let Some(p) = at.pending {
                assert(opener(all, n, p.line));
            }
        }
    }
}

proof fn same_front(a: Seq<Seq<char>>, b: Seq<Seq<char>>, n: int, s: SchemaView)
    requires
        0 <= n <= a.len(),
        n <= b.len(),
        a.take(n) == b.take(n),
    ensures
        declare_lines(a, n, s) == declare_lines(b, n, s),
    decreases n,
{
    if n > 0 {
        assert(a.take(n - 1) =~= a.take(n).take(n - 1));
        assert(b.take(n - 1) =~= b.take(n).take(n - 1));
        assert(a.take(n)[n - 1] == a[n - 1] && b.take(n)[n - 1] == b[n - 1]);
        same_front(a, b, n - 1, s);
    }
}

proof fn stopped_stays(all: Seq<Seq<char>>, m: int, n: int, s: SchemaView)
    requires
        0 <= m <= n,
        declare_lines(all, m, s) is Err,
    ensures
        declare_lines(all, n, s) == declare_lines(all, m, s),
    decreases n - m,
{
    if m < n {
        stopped_stays(all, m, n - 1, s);
    }
}

proof fn nothing_was_said(all: Seq<Seq<char>>, n: int)
    requires
        0 <= n <= all.len(),
        sections(all, n).len() == 0,
    ensures
        forall|i: int| 0 <= i < n ==> annotates(#[trigger] all[i]) is None,
    decreases n,
{
    if n > 0 {
        let before = sections(all, n - 1);
        assert(before.len() == 0);
        nothing_was_said(all, n - 1);
    }
}

/// An error comes of the first line that cannot be read, and speaks of it or of
/// the annotation whose statement it closes; nothing behind it matters. Where
/// every line can be read, the error speaks of the annotation whose statement
/// was never closed, or says that there is none.
pub proof fn a_refused_declaration_names_its_line(sql: Seq<char>, other: Seq<char>, s: SchemaView)
    ensures
        queries_of(sql, s) matches Err(f) ==> {
            let all = lines(sql);
            let n = all.len() as int;
            let b = lines(other);
            ||| exists|k: int|
                {
                    &&& 1 <= k <= n
                    &&& #[trigger] blamed(all, k, f.line)
                    &&& declare_lines(all, k - 1, s) is Ok
                    &&& declare_lines(all, k, s) is Err
                    &&& b.len() >= k && b.take(k) == all.take(k) ==> queries_of(other, s)
                        == queries_of(sql, s)
                }
            ||| {
                &&& declare_lines(all, n, s) is Ok
                &&& open_after(all, n)
                &&& opener(all, n, f.line)
            }
            ||| {
                &&& declare_lines(all, n, s) is Ok
                &&& f.line == 0
                &&& forall|i: int| 0 <= i < n ==> annotates(#[trigger] all[i]) is None
            }
        },
{
    let all = lines(sql);
    let n = all.len() as int;
    let b = lines(other);
    reading_stops(all, n, s);
    reading_keeps_up(all, n, s);
    if let Err(f) = queries_of(sql, s) {
        if declare_lines(all, n, s) is Err {
            let k = choose|k: int|
                {
                    &&& 1 <= k <= n
                    &&& #[trigger] blamed(all, k, f.line)
                    &&& declare_lines(all, k - 1, s) is Ok
                    &&& declare_lines(all, k, s) == declare_lines(all, n, s)
                };
            if b.len() >= k && b.take(k) == all.take(k) {
                same_front(all, b, k, s);
                stopped_stays(b, k, b.len() as int, s);
            }
            assert(blamed(all, k, f.line));
        } else if (declare_lines(all, n, s)->Ok_0).pending is None {
            nothing_was_said(all, n);
        }
    }
}

} // verus!
