//! Text, as sequences of characters: trimming, splitting, searching, and
//! numbers in and out.

use vstd::prelude::*;
use vstd::slice::slice_subrange;
use vstd::string::*;

verus! {

/// `String::push` appends a character to the string.
pub assume_specification[ String::push ](s: &mut String, c: char)
    ensures
        final(s)@ == old(s)@.push(c),
;

/// What `format!("{s:?}")` makes of a string: the string in double quotes,
/// with its unprintable characters escaped.
pub uninterp spec fn quoted(s: Seq<char>) -> Seq<char>;

/// `format!("{s:?}")`, the `Debug` form of a string, whose text is a function
/// of the string alone.
#[verifier::external_body]
pub(crate) fn quote(s: &str) -> (q: String)
    ensures
        q@ == quoted(s@),
{
    format!("{s:?}")
}

/// The characters of a string.
pub fn chars_of(s: &str) -> (v: Vec<char>)
    ensures
        v@ == s@,
{
    let mut v: Vec<char> = Vec::new();
    for c in it: s.chars()
        invariant
            it.seq() == s@,
            v@ == it.seq().take(it.index() as int),
    {
        v.push(c);
        assert(v@ =~= it.seq().take(it.index() + 1));
    }
    assert(v@ =~= s@);
    v
}

/// The string of these characters.
pub fn string_of(v: &[char]) -> (s: String)
    ensures
        s@ == v@,
{
    let mut s = String::new();
    let mut i: usize = 0;
    while i < v.len()
        invariant
            i <= v@.len(),
            s@ =~= v@.take(i as int),
        decreases v@.len() - i,
    {
        s.push(v[i]);
        i = i + 1;
    }
    assert(v@.take(i as int) =~= v@);
    s
}

/// Do these characters spell this string?
pub fn spells(v: &[char], s: &str) -> (yes: bool)
    ensures
        yes == (v@ == s@),
{
    let w = chars_of(s);
    same(v, w.as_slice())
}

pub fn same(a: &[char], b: &[char]) -> (yes: bool)
    ensures
        yes == (a@ == b@),
{
    if a.len() != b.len() {
        return false;
    }
    let mut i: usize = 0;
    while i < a.len()
        invariant
            i <= a@.len() == b@.len(),
            forall|j: int| 0 <= j < i ==> #[trigger] a@[j] == b@[j],
        decreases a@.len() - i,
    {
        if a[i] != b[i] {
            return false;
        }
        i = i + 1;
    }
    assert(a@ =~= b@);
    true
}

// ---- Characters ----

/// The characters with the Unicode property White_Space.
pub open spec fn white_space(c: char) -> bool {
    let u = c as u32;
    ||| 9 <= u <= 13
    ||| u == 0x20
    ||| u == 0x85
    ||| u == 0xA0
    ||| u == 0x1680
    ||| 0x2000 <= u <= 0x200A
    ||| u == 0x2028
    ||| u == 0x2029
    ||| u == 0x202F
    ||| u == 0x205F
    ||| u == 0x3000
}

pub fn is_white_space(c: char) -> (yes: bool)
    ensures
        yes == white_space(c),
{
    let u: u32 = c as u32;
    (9 <= u && u <= 13) || u == 0x20 || u == 0x85 || u == 0xA0 || u == 0x1680 || (0x2000 <= u && u
        <= 0x200A) || u == 0x2028 || u == 0x2029 || u == 0x202F || u == 0x205F || u == 0x3000
}

pub open spec fn lower_case(c: char) -> bool {
    'a' <= c <= 'z'
}

pub open spec fn upper_case(c: char) -> bool {
    'A' <= c <= 'Z'
}

pub open spec fn digit(c: char) -> bool {
    '0' <= c <= '9'
}

/// The ASCII lower-case form of a character.
pub open spec fn lowered(c: char) -> char {
    if upper_case(c) {
        (c as u32 + 32) as char
    } else {
        c
    }
}

/// The ASCII upper-case form of a character.
pub open spec fn raised(c: char) -> char {
    if lower_case(c) {
        (c as u32 - 32) as char
    } else {
        c
    }
}

pub open spec fn lowered_all(s: Seq<char>) -> Seq<char> {
    s.map_values(|c: char| lowered(c))
}

pub open spec fn raised_all(s: Seq<char>) -> Seq<char> {
    s.map_values(|c: char| raised(c))
}

pub fn to_lower(c: char) -> (l: char)
    ensures
        l == lowered(c),
{
    if 'A' <= c && c <= 'Z' {
        (c as u8 + 32) as char
    } else {
        c
    }
}

pub fn to_upper(c: char) -> (u: char)
    ensures
        u == raised(c),
{
    if 'a' <= c && c <= 'z' {
        (c as u8 - 32) as char
    } else {
        c
    }
}

pub fn lower(v: &[char]) -> (out: Vec<char>)
    ensures
        out@ == lowered_all(v@),
{
    let mut out: Vec<char> = Vec::new();
    let mut i: usize = 0;
    while i < v.len()
        invariant
            i <= v@.len(),
            out@ =~= lowered_all(v@.take(i as int)),
        decreases v@.len() - i,
    {
        out.push(to_lower(v[i]));
        i = i + 1;
    }
    assert(v@.take(i as int) =~= v@);
    out
}

pub fn upper(v: &[char]) -> (out: Vec<char>)
    ensures
        out@ == raised_all(v@),
{
    let mut out: Vec<char> = Vec::new();
    let mut i: usize = 0;
    while i < v.len()
        invariant
            i <= v@.len(),
            out@ =~= raised_all(v@.take(i as int)),
        decreases v@.len() - i,
    {
        out.push(to_upper(v[i]));
        i = i + 1;
    }
    assert(v@.take(i as int) =~= v@);
    out
}

/// A name: lower-case ASCII letters, digits and underscores, starting with a
/// letter.
pub open spec fn identifier(s: Seq<char>) -> bool {
    &&& s.len() > 0
    &&& lower_case(s[0])
    &&& forall|i: int| 0 <= i < s.len() ==> name_char(#[trigger] s[i])
}

pub open spec fn name_char(c: char) -> bool {
    lower_case(c) || digit(c) || c == '_'
}

pub fn is_ident(v: &[char]) -> (yes: bool)
    ensures
        yes == identifier(v@),
{
    if v.len() == 0 {
        return false;
    }
    if !('a' <= v[0] && v[0] <= 'z') {
        return false;
    }
    let mut i: usize = 0;
    while i < v.len()
        invariant
            i <= v@.len(),
            forall|j: int| 0 <= j < i ==> name_char(#[trigger] v@[j]),
        decreases v@.len() - i,
    {
        let c: char = v[i];
        if !(('a' <= c && c <= 'z') || ('0' <= c && c <= '9') || c == '_') {
            return false;
        }
        i = i + 1;
    }
    true
}

// ---- Trimming and splitting ----

/// Without the white space in front.
pub open spec fn trim_front(s: Seq<char>) -> Seq<char>
    decreases s.len(),
{
    if s.len() > 0 && white_space(s[0]) {
        trim_front(s.drop_first())
    } else {
        s
    }
}

/// Without the white space behind.
pub open spec fn trim_back(s: Seq<char>) -> Seq<char>
    decreases s.len(),
{
    if s.len() > 0 && white_space(s.last()) {
        trim_back(s.drop_last())
    } else {
        s
    }
}

pub open spec fn trimmed(s: Seq<char>) -> Seq<char> {
    trim_back(trim_front(s))
}

pub fn trim(v: &[char]) -> (t: &[char])
    ensures
        t@ == trimmed(v@),
{
    let mut a: usize = 0;
    assert(v@.skip(0) =~= v@);
    while a < v.len() && is_white_space(v[a])
        invariant
            a <= v@.len(),
            trim_front(v@) == trim_front(v@.skip(a as int)),
        decreases v@.len() - a,
    {
        assert(v@.skip(a as int).drop_first() =~= v@.skip(a + 1));
        a = a + 1;
    }
    let mut b: usize = v.len();
    assert(v@.subrange(a as int, b as int) =~= v@.skip(a as int));
    while b > a && is_white_space(v[b - 1])
        invariant
            a <= b <= v@.len(),
            trimmed(v@) == trim_back(v@.subrange(a as int, b as int)),
        decreases b,
    {
        assert(v@.subrange(a as int, b as int).drop_last() =~= v@.subrange(a as int, b - 1));
        b = b - 1;
    }
    slice_subrange(v, a, b)
}

/// Where `c` first occurs from `from` on.
pub open spec fn index_from(s: Seq<char>, c: char, from: int) -> Option<int>
    decreases s.len() - from,
{
    if from >= s.len() {
        None
    } else if s[from] == c {
        Some(from)
    } else {
        index_from(s, c, from + 1)
    }
}

pub fn index_of(v: &[char], c: char, from: usize) -> (at: Option<usize>)
    requires
        from <= v@.len(),
    ensures
        match at {
            Some(i) => index_from(v@, c, from as int) == Some(i as int) && from <= i < v@.len()
                && v@[i as int] == c,
            None => index_from(v@, c, from as int) is None,
        },
{
    let mut i: usize = from;
    while i < v.len()
        invariant
            from <= i <= v@.len(),
            index_from(v@, c, from as int) == index_from(v@, c, i as int),
        decreases v@.len() - i,
    {
        if v[i] == c {
            return Some(i);
        }
        i = i + 1;
    }
    None
}

/// Does `p` stand in `s` at `at`?
pub open spec fn stands_at(s: Seq<char>, p: Seq<char>, at: int) -> bool {
    at + p.len() <= s.len() && s.subrange(at, at + p.len()) == p
}

/// Where `p` first occurs from `from` on.
pub open spec fn find_from(s: Seq<char>, p: Seq<char>, from: int) -> Option<int>
    decreases s.len() + 1 - from,
{
    if from > s.len() {
        None
    } else if stands_at(s, p, from) {
        Some(from)
    } else {
        find_from(s, p, from + 1)
    }
}

pub open spec fn found(s: Seq<char>, p: Seq<char>) -> Option<int> {
    find_from(s, p, 0)
}

pub fn find(v: &[char], p: &str) -> (at: Option<usize>)
    ensures
        match at {
            Some(i) => found(v@, p@) == Some(i as int) && i + p@.len() <= v.len(),
            None => found(v@, p@) is None,
        },
{
    let w = chars_of(p);
    let mut i: usize = 0;
    while i <= v.len()
        invariant
            w@ == p@,
            i <= v.len() + 1,
            found(v@, p@) == find_from(v@, p@, i as int),
        decreases v@.len() + 1 - i,
    {
        if w.len() <= v.len() - i && same(slice_subrange(v, i, i + w.len()), w.as_slice()) {
            return Some(i);
        }
        if i == v.len() {
            assert(find_from(v@, p@, i + 1) is None);
            return None;
        }
        i = i + 1;
    }
    None
}

/// The lines of a text. A line ends at a line feed, with the carriage return
/// in front of it if there is one; an empty last line does not count.
pub open spec fn lines(s: Seq<char>) -> Seq<Seq<char>>
    decreases s.len(),
{
    if s.len() == 0 {
        Seq::empty()
    } else {
        match index_from(s, '\n', 0) {
            None => seq![s],
            Some(i) => if 0 <= i < s.len() {
                seq![without_cr(s.take(i))] + lines(s.skip(i + 1))
            } else {
                Seq::empty()
            },
        }
    }
}

pub open spec fn without_cr(s: Seq<char>) -> Seq<char> {
    if s.len() > 0 && s.last() == '\r' {
        s.drop_last()
    } else {
        s
    }
}

/// A list of texts, as sequences.
pub open spec fn texts(v: Seq<Vec<char>>) -> Seq<Seq<char>> {
    v.map_values(|t: Vec<char>| t@)
}

pub fn copy_of(v: &[char]) -> (w: Vec<char>)
    ensures
        w@ == v@,
{
    let mut w: Vec<char> = Vec::new();
    let mut i: usize = 0;
    while i < v.len()
        invariant
            i <= v@.len(),
            w@ =~= v@.take(i as int),
        decreases v@.len() - i,
    {
        w.push(v[i]);
        i = i + 1;
    }
    assert(v@.take(i as int) =~= v@);
    w
}

pub fn split_lines(v: &[char]) -> (out: Vec<Vec<char>>)
    ensures
        texts(out@) == lines(v@),
        out@.len() <= v@.len(),
{
    let mut out: Vec<Vec<char>> = Vec::new();
    let mut at: usize = 0;
    assert(v@.skip(0) =~= v@);
    assert(texts(out@) + lines(v@) =~= lines(v@));
    while at < v.len()
        invariant
            at <= v@.len(),
            out@.len() <= at,
            texts(out@) + lines(v@.skip(at as int)) == lines(v@),
        decreases v@.len() - at,
    {
        let ghost rest = v@.skip(at as int);
        let ghost before = texts(out@);
        match index_of(slice_subrange(v, at, v.len()), '\n', 0) {
            None => {
                assert(v@.subrange(at as int, v@.len() as int) =~= rest);
                out.push(copy_of(slice_subrange(v, at, v.len())));
                proof {
                    assert(texts(out@) =~= before + seq![rest]);
                    assert(lines(rest) == seq![rest]);
                }
                return out;
            },
            Some(i) => {
                assert(v@.subrange(at as int, v@.len() as int) =~= rest);
                let mut end: usize = at + i;
                if end > at && v[end - 1] == '\r' {
                    end = end - 1;
                }
                out.push(copy_of(slice_subrange(v, at, end)));
                proof {
                    let line = without_cr(rest.take(i as int));
                    assert(v@.subrange(at as int, end as int) =~= line);
                    assert(rest.skip(i + 1) =~= v@.skip(at + i + 1));
                    assert(texts(out@) =~= before + seq![line]);
                    assert(before + seq![line] + lines(v@.skip(at + i + 1)) =~= before + (
                    seq![line] + lines(v@.skip(at + i + 1))));
                }
                at = at + i + 1;
            },
        }
    }
    assert(lines(v@.skip(at as int)) =~= Seq::empty());
    assert(texts(out@) + lines(v@.skip(at as int)) =~= texts(out@));
    out
}

/// How many characters from the front on are not white space.
pub open spec fn word_len(s: Seq<char>) -> int
    decreases s.len(),
{
    if s.len() == 0 || white_space(s[0]) {
        0
    } else {
        1 + word_len(s.drop_first())
    }
}

pub proof fn word_len_fits(s: Seq<char>)
    ensures
        0 <= word_len(s) <= s.len(),
    decreases s.len(),
{
    if s.len() > 0 && !white_space(s[0]) {
        word_len_fits(s.drop_first());
    }
}

/// The words of a text: its longest pieces without white space.
pub open spec fn words(s: Seq<char>) -> Seq<Seq<char>>
    decreases s.len(),
{
    if s.len() == 0 {
        Seq::empty()
    } else if white_space(s[0]) {
        words(s.drop_first())
    } else {
        let n = word_len(s);
        if 0 < n <= s.len() {
            seq![s.take(n)] + words(s.skip(n))
        } else {
            Seq::empty()
        }
    }
}

pub fn split_words(v: &[char]) -> (out: Vec<Vec<char>>)
    ensures
        texts(out@) == words(v@),
{
    let mut out: Vec<Vec<char>> = Vec::new();
    let mut at: usize = 0;
    assert(v@.skip(0) =~= v@);
    assert(texts(out@) + words(v@) =~= words(v@));
    while at < v.len()
        invariant
            at <= v@.len(),
            texts(out@) + words(v@.skip(at as int)) == words(v@),
        decreases v@.len() - at,
    {
        let ghost rest = v@.skip(at as int);
        let ghost before = texts(out@);
        if is_white_space(v[at]) {
            assert(rest.drop_first() =~= v@.skip(at + 1));
            at = at + 1;
        } else {
            let mut end: usize = at;
            assert(v@.skip(end as int) == rest);
            while end < v.len() && !is_white_space(v[end])
                invariant
                    at <= end <= v@.len(),
                    rest == v@.skip(at as int),
                    word_len(rest) == (end - at) + word_len(v@.skip(end as int)),
                decreases v@.len() - end,
            {
                assert(v@.skip(end as int).drop_first() =~= v@.skip(end + 1));
                end = end + 1;
            }
            out.push(copy_of(slice_subrange(v, at, end)));
            proof {
                let n = word_len(rest);
                assert(n == end - at);
                assert(v@.subrange(at as int, end as int) =~= rest.take(n));
                assert(rest.skip(n) =~= v@.skip(end as int));
                assert(texts(out@) =~= before + seq![rest.take(n)]);
                assert(before + seq![rest.take(n)] + words(v@.skip(end as int)) =~= before + (
                seq![rest.take(n)] + words(v@.skip(end as int))));
            }
            at = end;
        }
    }
    assert(words(v@.skip(at as int)) =~= Seq::empty());
    assert(texts(out@) + words(v@.skip(at as int)) =~= texts(out@));
    out
}

// ---- Numbers ----

pub open spec fn digit_char(d: int) -> char {
    if d < 10 {
        (d + 48) as char
    } else {
        (d + 55) as char
    }
}

/// A number in decimal.
pub open spec fn decimal(n: nat) -> Seq<char>
    decreases n,
{
    if n < 10 {
        seq![digit_char(n as int)]
    } else {
        decimal(n / 10).push(digit_char((n % 10) as int))
    }
}

fn digit_of(d: u8) -> (c: char)
    requires
        d < 16,
    ensures
        c == digit_char(d as int),
{
    if d < 10 {
        (d + 48) as char
    } else {
        (d + 55) as char
    }
}

pub fn push_decimal(s: &mut String, n: usize)
    ensures
        final(s)@ == old(s)@ + decimal(n as nat),
{
    push_number(s, n as u64);
}

pub fn push_number(s: &mut String, n: u64)
    ensures
        final(s)@ == old(s)@ + decimal(n as nat),
    decreases n,
{
    if n < 10 {
        s.push(digit_of(n as u8));
    } else {
        push_number(s, n / 10);
        s.push(digit_of((n % 10) as u8));
    }
    assert(s@ =~= old(s)@ + decimal(n as nat));
}

/// The last `k` hexadecimal digits of a number, in upper case.
pub open spec fn hex(n: nat, k: nat) -> Seq<char>
    decreases k,
{
    if k == 0 {
        Seq::empty()
    } else {
        hex(n / 16, (k - 1) as nat).push(digit_char((n % 16) as int))
    }
}

pub fn push_hex(s: &mut String, n: u64, k: usize)
    ensures
        final(s)@ == old(s)@ + hex(n as nat, k as nat),
    decreases k,
{
    if k > 0 {
        push_hex(s, n / 16, k - 1);
        s.push(digit_of((n % 16) as u8));
    }
    assert(s@ =~= old(s)@ + hex(n as nat, k as nat));
}

/// The number that digits spell.
pub open spec fn spelled(s: Seq<char>) -> Option<nat>
    decreases s.len(),
{
    if s.len() == 0 {
        Some(0)
    } else if !digit(s.last()) {
        None
    } else {
        match spelled(s.drop_last()) {
            None => None,
            Some(n) => Some(10 * n + (s.last() as nat - 48) as nat),
        }
    }
}

/// The `u32` that a text spells: digits, with a plus sign in front if need be.
pub open spec fn number(s: Seq<char>) -> Option<u32> {
    let digits = if s.len() > 0 && s[0] == '+' {
        s.drop_first()
    } else {
        s
    };
    if digits.len() == 0 {
        None
    } else {
        match spelled(digits) {
            Some(n) => if n <= u32::MAX {
                Some(n as u32)
            } else {
                None
            },
            None => None,
        }
    }
}

pub fn parse_number(v: &[char]) -> (n: Option<u32>)
    ensures
        n == number(v@),
{
    let start: usize = if v.len() > 0 && v[0] == '+' {
        1
    } else {
        0
    };
    let ghost digits = v@.skip(start as int);
    proof {
        if start == 1 {
            assert(digits =~= v@.drop_first());
        } else {
            assert(digits =~= v@);
        }
    }
    if start == v.len() {
        return None;
    }
    let mut n: u32 = 0;
    let mut i: usize = start;
    while i < v.len()
        invariant
            start <= i <= v@.len(),
            digits == v@.skip(start as int),
            spelled(digits.take(i - start)) == Some(n as nat),
            digits.len() == v@.len() - start,
            digits.len() > 0,
            number(v@) == (match spelled(digits) {
                Some(n) => if n <= u32::MAX {
                    Some(n as u32)
                } else {
                    None
                },
                None => None,
            }),
        decreases v@.len() - i,
    {
        let c: char = v[i];
        let ghost next = digits.take(i - start + 1);
        assert(next.drop_last() =~= digits.take(i - start));
        assert(next.last() == c);
        if !('0' <= c && c <= '9') {
            proof {
                spelled_grows(digits, i - start + 1);
            }
            return None;
        }
        let d: u32 = c as u32 - 48;
        let wide: u64 = n as u64 * 10 + d as u64;
        assert(spelled(next) == Some(wide as nat));
        if wide > 0xFFFF_FFFF {
            proof {
                spelled_grows(digits, i - start + 1);
            }
            return None;
        }
        n = wide as u32;
        i = i + 1;
    }
    assert(digits.take(i - start) =~= digits);
    Some(n)
}

/// A prefix that is no number spoils the whole, and one that is only grows.
proof fn spelled_grows(s: Seq<char>, n: int)
    requires
        0 <= n <= s.len(),
    ensures
        spelled(s.take(n)) is None ==> spelled(s) is None,
        spelled(s.take(n)) is Some && spelled(s) is Some ==> spelled(s)->0 >= spelled(s.take(n))->0,
    decreases s.len() - n,
{
    if n < s.len() {
        spelled_grows(s.drop_last(), n);
        assert(s.drop_last().take(n) =~= s.take(n));
    } else {
        assert(s.take(n) =~= s);
    }
}

// ---- What texts spell ----

/// A number in decimal is digits that spell it, without a zero in front.
pub proof fn decimal_spells_its_number(n: nat)
    ensures
        spelled(decimal(n)) == Some(n),
        n <= u32::MAX ==> number(decimal(n)) == Some(n as u32),
        decimal(n).len() > 0,
        decimal(n)[0] == '0' ==> n == 0,
        forall|i: int| 0 <= i < decimal(n).len() ==> digit(#[trigger] decimal(n)[i]),
    decreases n,
{
    reveal_with_fuel(spelled, 2);
    if n < 10 {
        assert(decimal(n).drop_last() =~= Seq::<char>::empty());
    } else {
        decimal_spells_its_number(n / 10);
        assert(decimal(n).drop_last() =~= decimal(n / 10));
        assert(decimal(n)[0] == decimal(n / 10)[0]);
        assert forall|i: int| 0 <= i < decimal(n).len() implies digit(#[trigger] decimal(n)[i]) by {
            if i < decimal(n / 10).len() {
                assert(decimal(n)[i] == decimal(n / 10)[i]);
            }
        }
    }
}

/// The number that a hexadecimal digit stands for, in upper case.
pub open spec fn hex_digit(c: char) -> Option<nat> {
    if '0' <= c <= '9' {
        Some((c as nat - '0' as nat) as nat)
    } else if 'A' <= c <= 'F' {
        Some((c as nat - 'A' as nat + 10) as nat)
    } else {
        None
    }
}

/// The number that hexadecimal digits spell.
pub open spec fn hex_spelled(s: Seq<char>) -> Option<nat>
    decreases s.len(),
{
    if s.len() == 0 {
        Some(0)
    } else {
        match (hex_spelled(s.drop_last()), hex_digit(s.last())) {
            (Some(n), Some(d)) => Some(16 * n + d),
            _ => None,
        }
    }
}

/// `16` to the power of `k`.
pub open spec fn pow16(k: nat) -> nat
    decreases k,
{
    if k == 0 {
        1
    } else {
        16 * pow16((k - 1) as nat)
    }
}

/// A number in `k` hexadecimal digits is that many of them, and they spell it,
/// if it has no more.
pub proof fn hex_spells_its_number(n: nat, k: nat)
    ensures
        hex(n, k).len() == k,
        hex_spelled(hex(n, k)) is Some,
        n < pow16(k) ==> hex_spelled(hex(n, k)) == Some(n),
    decreases k,
{
    if k > 0 {
        hex_spells_its_number(n / 16, (k - 1) as nat);
        assert(hex(n, k).drop_last() =~= hex(n / 16, (k - 1) as nat));
    }
}

/// Trimming takes white space from both ends, all of it, and nothing else.
pub proof fn trimming_takes_the_space_around(s: Seq<char>) -> (cut: (int, int))
    ensures
        0 <= cut.0 <= cut.1 <= s.len(),
        trimmed(s) == s.subrange(cut.0, cut.1),
        forall|i: int| 0 <= i < cut.0 || cut.1 <= i < s.len() ==> white_space(#[trigger] s[i]),
        trimmed(s).len() > 0 ==> !white_space(trimmed(s)[0]) && !white_space(trimmed(s).last()),
{
    let a = front_space(s);
    let t = s.skip(a);
    let b = back_space(t);
    assert(t.take(b) =~= s.subrange(a, a + b));
    assert forall|i: int| 0 <= i < a || a + b <= i < s.len() implies white_space(
        #[trigger] s[i],
    ) by {
        if i >= a + b {
            assert(t[i - a] == s[i]);
        }
    }
    (a, a + b)
}

proof fn front_space(s: Seq<char>) -> (n: int)
    ensures
        0 <= n <= s.len(),
        trim_front(s) == s.skip(n),
        forall|i: int| 0 <= i < n ==> white_space(#[trigger] s[i]),
        n < s.len() ==> !white_space(s[n]),
    decreases s.len(),
{
    if s.len() > 0 && white_space(s[0]) {
        let t = s.drop_first();
        let n = front_space(t);
        assert(t.skip(n) =~= s.skip(n + 1));
        assert forall|i: int| 0 <= i < n + 1 implies white_space(#[trigger] s[i]) by {
            if i > 0 {
                assert(t[i - 1] == s[i]);
            }
        }
        n + 1
    } else {
        assert(s.skip(0) =~= s);
        0
    }
}

proof fn back_space(s: Seq<char>) -> (n: int)
    ensures
        0 <= n <= s.len(),
        trim_back(s) == s.take(n),
        forall|i: int| n <= i < s.len() ==> white_space(#[trigger] s[i]),
        n > 0 ==> !white_space(s[n - 1]),
    decreases s.len(),
{
    if s.len() > 0 && white_space(s.last()) {
        let t = s.drop_last();
        let n = back_space(t);
        assert(t.take(n) =~= s.take(n));
        assert forall|i: int| n <= i < s.len() implies white_space(#[trigger] s[i]) by {
            if i < t.len() {
                assert(t[i] == s[i]);
            }
        }
        n
    } else {
        assert(s.take(s.len() as int) =~= s);
        s.len() as int
    }
}

} // verus!
