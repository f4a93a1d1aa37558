//! How texts are taken apart: into lines, words and numbers.

use crate::codegen::text::{
    decimal, decimal_spells_its_number, digit, find_from, found, index_from, lines, lower_case,
    lowered, number, raised, spelled, stands_at, upper_case, white_space, word_len, words,
};
use vstd::prelude::*;

verus! {

proof fn first_index(s: Seq<char>, c: char, from: int)
    requires
        0 <= from,
    ensures
        match index_from(s, c, from) {
            Some(i) => from <= i < s.len() && s[i] == c && forall|j: int|
                from <= j < i ==> #[trigger] s[j] != c,
            None => forall|j: int| from <= j < s.len() ==> #[trigger] s[j] != c,
        },
    decreases s.len() - from,
{
    if from < s.len() && s[from] != c {
        first_index(s, c, from + 1);
    }
}

proof fn first_found(s: Seq<char>, p: Seq<char>, from: int)
    requires
        0 <= from,
    ensures
        match find_from(s, p, from) {
            Some(i) => from <= i && stands_at(s, p, i) && forall|j: int|
                from <= j < i ==> !#[trigger] stands_at(s, p, j),
            None => forall|j: int| from <= j ==> !#[trigger] stands_at(s, p, j),
        },
    decreases s.len() + 1 - from,
{
    if from <= s.len() && !stands_at(s, p, from) {
        first_found(s, p, from + 1);
    }
}

/// A piece of text is found where it first stands, and not found only where it
/// stands nowhere.
pub proof fn a_search_finds_the_first_place(s: Seq<char>, p: Seq<char>)
    ensures
        match found(s, p) {
            Some(i) => {
                &&& 0 <= i && i + p.len() <= s.len()
                &&& s.subrange(i, i + p.len()) == p
                &&& forall|j: int|
                    0 <= j < i ==> #[trigger] s.subrange(j, j + p.len()) != p
            },
            None => forall|j: int|
                0 <= j && j + p.len() <= s.len() ==> #[trigger] s.subrange(j, j + p.len()) != p,
        },
{
    first_found(s, p, 0);
    match found(s, p) {
        Some(i) => {
            assert forall|j: int| 0 <= j < i implies #[trigger] s.subrange(j, j + p.len()) != p by {
                assert(!stands_at(s, p, j));
            }
        },
        None => {
            assert forall|j: int|
                0 <= j && j + p.len() <= s.len() implies #[trigger] s.subrange(j, j + p.len())
                != p by {
                assert(!stands_at(s, p, j));
            }
        },
    }
}

/// A line ends at a line feed, and what stands behind that is taken apart as if
/// it stood alone. A carriage return in front of the line feed is no part of
/// the line; one that stands elsewhere is. A text without a line feed is one
/// line, unless there is nothing in it.
pub proof fn lines_end_at_line_feeds(a: Seq<char>, b: Seq<char>)
    requires
        forall|i: int| 0 <= i < a.len() ==> #[trigger] a[i] != '\n',
    ensures
        lines(Seq::empty()) == Seq::<Seq<char>>::empty(),
        a.len() > 0 ==> lines(a) == seq![a],
        a.len() == 0 || a.last() != '\r' ==> lines(a.push('\n') + b) == seq![a] + lines(b),
        lines(a.push('\r').push('\n') + b) == seq![a] + lines(b),
{
    first_index(a, '\n', 0);
    let plain = a.push('\n') + b;
    first_index(plain, '\n', 0);
    assert(plain[a.len() as int] == '\n');
    assert forall|i: int| 0 <= i < a.len() implies plain[i] != '\n' by {
        assert(plain[i] == a[i]);
    }
    assert(plain.take(a.len() as int) =~= a);
    assert(plain.skip(a.len() as int + 1) =~= b);
    let c = a.push('\r');
    let returned = c.push('\n') + b;
    first_index(returned, '\n', 0);
    assert(returned[c.len() as int] == '\n');
    assert forall|i: int| 0 <= i < c.len() implies returned[i] != '\n' by {
        assert(returned[i] == c[i]);
    }
    assert(returned.take(c.len() as int) =~= c);
    assert(returned.skip(c.len() as int + 1) =~= b);
    assert(c.drop_last() =~= a);
}

proof fn word_stops(s: Seq<char>, n: int)
    requires
        0 <= n <= s.len(),
        forall|i: int| 0 <= i < n ==> !white_space(#[trigger] s[i]),
        n < s.len() ==> white_space(s[n]),
    ensures
        word_len(s) == n,
    decreases n,
{
    if n > 0 {
        let t = s.drop_first();
        assert forall|i: int| 0 <= i < n - 1 implies !white_space(#[trigger] t[i]) by {
            assert(s[i + 1] == t[i]);
        }
        word_stops(t, n - 1);
    }
}

proof fn word_run(s: Seq<char>) -> (n: int)
    ensures
        0 <= n <= s.len(),
        n == word_len(s),
        forall|i: int| 0 <= i < n ==> !white_space(#[trigger] s[i]),
        n < s.len() ==> white_space(s[n]),
    decreases s.len(),
{
    if s.len() == 0 || white_space(s[0]) {
        0
    } else {
        let t = s.drop_first();
        let n = word_run(t);
        assert forall|i: int| 0 <= i < n + 1 implies !white_space(#[trigger] s[i]) by {
            if i > 0 {
                assert(t[i - 1] == s[i]);
            }
        }
        n + 1
    }
}

/// White space parts words: what stands in front of it and what stands behind
/// it are taken apart each for itself. A text without white space is one word,
/// unless there is nothing in it.
pub proof fn white_space_parts_words(a: Seq<char>, c: char, b: Seq<char>)
    requires
        white_space(c),
    ensures
        words(Seq::empty()) == Seq::<Seq<char>>::empty(),
        a.len() > 0 && (forall|i: int| 0 <= i < a.len() ==> !white_space(#[trigger] a[i]))
            ==> words(a) == seq![a],
        words(a.push(c) + b) == words(a) + words(b),
    decreases a.len(),
{
    let s = a.push(c) + b;
    if a.len() == 0 {
        assert(s.drop_first() =~= b);
        assert(words(a) + words(b) =~= words(b));
    } else if white_space(a[0]) {
        white_space_parts_words(a.drop_first(), c, b);
        assert(s.drop_first() =~= a.drop_first().push(c) + b);
    } else {
        let n = word_run(a);
        assert(n > 0);
        assert forall|i: int| 0 <= i < n implies !white_space(#[trigger] s[i]) by {
            assert(s[i] == a[i]);
        }
        assert(s[n] == if n < a.len() {
            a[n]
        } else {
            c
        });
        word_stops(s, n);
        assert(s.take(n) =~= a.take(n));
        let rest = a.skip(n);
        assert(s.skip(n) =~= rest.push(c) + b);
        white_space_parts_words(rest, c, b);
        assert(seq![a.take(n)] + (words(rest) + words(b)) =~= (seq![a.take(n)] + words(rest))
            + words(b));
        if forall|i: int| 0 <= i < a.len() ==> !white_space(#[trigger] a[i]) {
            word_stops(a, a.len() as int);
            assert(a.take(n) =~= a);
            assert(rest =~= Seq::<char>::empty());
            assert(words(rest) =~= Seq::<Seq<char>>::empty());
            assert(words(a) =~= seq![a]);
        }
    }
}

proof fn spelled_is_digits(s: Seq<char>)
    ensures
        spelled(s) is Some <==> forall|i: int| 0 <= i < s.len() ==> digit(#[trigger] s[i]),
    decreases s.len(),
{
    if s.len() > 0 {
        let t = s.drop_last();
        spelled_is_digits(t);
        if spelled(s) is Some {
            assert forall|i: int| 0 <= i < s.len() implies digit(#[trigger] s[i]) by {
                if i < t.len() {
                    assert(t[i] == s[i]);
                }
            }
        }
        if forall|i: int| 0 <= i < s.len() ==> digit(#[trigger] s[i]) {
            assert(digit(s[s.len() - 1]));
            assert forall|i: int| 0 <= i < t.len() implies digit(#[trigger] t[i]) by {
                assert(digit(s[i]));
            }
        }
    }
}

/// A number is read back from its digits, with a plus sign in front or without,
/// as long as it fits; anything but digits behind the sign is no number.
pub proof fn numbers_are_read_back(n: nat, s: Seq<char>)
    ensures
        number(decimal(n)) == if n <= u32::MAX {
            Some(n as u32)
        } else {
            None::<u32>
        },
        number(seq!['+'] + decimal(n)) == number(decimal(n)),
        number(s) is Some ==> {
            let digits = if s[0] == '+' {
                s.drop_first()
            } else {
                s
            };
            &&& digits.len() > 0
            &&& forall|i: int| 0 <= i < digits.len() ==> digit(#[trigger] digits[i])
        },
        number(Seq::empty()) is None,
{
    decimal_spells_its_number(n);
    let d = decimal(n);
    spelled_is_digits(d);
    assert(digit(d[0]));
    assert((seq!['+'] + d).drop_first() =~= d);
    if s.len() > 0 {
        spelled_is_digits(s);
        spelled_is_digits(s.drop_first());
    }
}

/// Only the letters of ASCII have another case; taking it and taking the first
/// one again leads back.
pub proof fn cases_come_in_pairs(c: char)
    ensures
        upper_case(c) <==> lowered(c) != c,
        lower_case(c) <==> raised(c) != c,
        upper_case(c) ==> lower_case(lowered(c)) && raised(lowered(c)) == c,
        lower_case(c) ==> upper_case(raised(c)) && lowered(raised(c)) == c,
        upper_case(c) ==> lowered(c) as int - 'a' as int == c as int - 'A' as int,
{
}

} // verus!
