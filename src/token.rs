//! Splitting input into tokens and telling numbers from words.
use vstd::prelude::*;

verus! {

/// A classified token.
pub enum TokenType {
    /// A word, in upper case.
    Word(String),
    /// A base-10 signed 32-bit integer.
    Num(i32),
}

/// The characters with the Unicode `White_Space` property.
pub open spec fn white_space(c: char) -> bool {
    ('\u{9}' <= c <= '\u{d}') || c == ' ' || c == '\u{85}' || c == '\u{a0}' || c == '\u{1680}'
        || ('\u{2000}' <= c <= '\u{200a}') || c == '\u{2028}' || c == '\u{2029}' || c
        == '\u{202f}' || c == '\u{205f}' || c == '\u{3000}'
}

/// The views of a sequence of string slices.
pub open spec fn views_of(ts: Seq<&str>) -> Seq<Seq<char>> {
    ts.map_values(|t: &str| t@)
}

/// The maximal runs of non-whitespace characters of `s`, in order.
pub open spec fn words_of(s: Seq<char>) -> Seq<Seq<char>>
    decreases s.len(),
{
    if s.len() == 0 {
        seq![]
    } else {
        let prev = words_of(s.drop_last());
        let c = s.last();
        if white_space(c) {
            prev
        } else if s.len() >= 2 && !white_space(s[s.len() - 2]) {
            prev.drop_last().push(prev.last().push(c))
        } else {
            prev.push(seq![c])
        }
    }
}

/// Every token is non-empty and holds no whitespace.
pub proof fn lemma_words_nonblank(s: Seq<char>)
    ensures
        forall|i: int|
            0 <= i < words_of(s).len() ==> (#[trigger] words_of(s)[i]).len() > 0 && forall|j: int|
                0 <= j < words_of(s)[i].len() ==> !white_space(#[trigger] words_of(s)[i][j]),
    decreases s.len(),
{
    if s.len() > 0 {
        lemma_words_nonblank(s.drop_last());
        let prev = words_of(s.drop_last());
        let c = s.last();
        if !white_space(c) && s.len() >= 2 && !white_space(s[s.len() - 2]) {
            lemma_last_word_ends_here(s.drop_last());
            let w = prev.last().push(c);
            assert forall|j: int| 0 <= j < w.len() implies !white_space(#[trigger] w[j]) by {
                if j < prev.last().len() {
                    assert(prev[prev.len() - 1][j] == w[j]);
                }
            }
        }
    }
}

/// Where `s` ends in a non-whitespace character, some token ends there.
proof fn lemma_last_word_ends_here(s: Seq<char>)
    requires
        s.len() > 0,
        !white_space(s.last()),
    ensures
        words_of(s).len() > 0,
    decreases s.len(),
{
}

pub open spec fn is_digit(c: char) -> bool {
    '0' <= c <= '9'
}

/// The value of a string of decimal digits.
pub open spec fn digits_value(s: Seq<char>) -> int
    decreases s.len(),
{
    if s.len() == 0 {
        0
    } else {
        digits_value(s.drop_last()) * 10 + (s.last() as int - '0' as int)
    }
}

pub open spec fn all_digits(s: Seq<char>) -> bool {
    s.len() > 0 && forall|i: int| 0 <= i < s.len() ==> is_digit(#[trigger] s[i])
}

/// The integer that `s` spells: an optional sign and then one or more decimal digits.
pub open spec fn signed_value(s: Seq<char>) -> Option<int> {
    if s.len() > 0 && s[0] == '-' && all_digits(s.drop_first()) {
        Some(-digits_value(s.drop_first()))
    } else if s.len() > 0 && s[0] == '+' && all_digits(s.drop_first()) {
        Some(digits_value(s.drop_first()))
    } else if all_digits(s) {
        Some(digits_value(s))
    } else {
        None
    }
}

/// `s` read as a 32-bit signed integer, if it is one.
pub open spec fn parse_i32(s: Seq<char>) -> Option<i32> {
    match signed_value(s) {
        Some(v) => if i32::MIN <= v <= i32::MAX {
            Some(v as i32)
        } else {
            None
        },
        None => None,
    }
}

pub open spec fn upper_char(c: char) -> char {
    if 'a' <= c <= 'z' {
        ((c as u32) - 32) as char
    } else {
        c
    }
}

/// `s` with the ASCII letters `a` to `z` in upper case, all else kept.
pub open spec fn ascii_upper(s: Seq<char>) -> Seq<char> {
    s.map_values(|c: char| upper_char(c))
}

pub fn is_white_space(c: char) -> (r: bool)
    ensures
        r == white_space(c),
{
    ('\u{9}' <= c && c <= '\u{d}') || c == ' ' || c == '\u{85}' || c == '\u{a0}' || c
        == '\u{1680}' || ('\u{2000}' <= c && c <= '\u{200a}') || c == '\u{2028}' || c
        == '\u{2029}' || c == '\u{202f}' || c == '\u{205f}' || c == '\u{3000}'
}

/// The characters of `s`.
pub fn chars_of(s: &str) -> (r: Vec<char>)
    ensures
        r@ == s@,
{
    let mut r: Vec<char> = Vec::new();
    for c in it: s.chars()
        invariant
            r@ == it.seq().take(it.index() as int),
    {
        r.push(c);
    }
    r
}

/// A bound past every magnitude that a 32-bit integer can have.
const CAP: i64 = 0x8000_0001;

/// `cs` read as a 32-bit signed integer, if it is one.
pub fn parse_number(cs: &Vec<char>) -> (r: Option<i32>)
    ensures
        r == parse_i32(cs@),
{
    let n = cs.len();
    if n == 0 {
        return None;
    }
    let neg = cs[0] == '-';
    let first: usize = if neg || cs[0] == '+' {
        1
    } else {
        0
    };
    if first == n {
        assert(!all_digits(cs@));
        assert(!all_digits(cs@.drop_first()));
        return None;
    }
    let ghost digits = cs@.subrange(first as int, n as int);
    let mut acc: i64 = 0;
    let mut i: usize = first;
    while i < n
        invariant
            n == cs@.len(),
            first <= i <= n,
            digits == cs@.subrange(first as int, n as int),
            neg == (cs@[0] == '-'),
            first == 1 <==> (cs@[0] == '-' || cs@[0] == '+'),
            first <= 1,
            forall|j: int| first <= j < i ==> is_digit(#[trigger] cs@[j]),
            0 <= acc <= CAP,
            acc == (if digits_value(cs@.subrange(first as int, i as int)) >= CAP {
                CAP as int
            } else {
                digits_value(cs@.subrange(first as int, i as int))
            }),
        decreases n - i,
    {
        let c = cs[i];
        if !('0' <= c && c <= '9') {
            assert(!is_digit(digits[i - first]));
            assert(!all_digits(cs@)) by {
                if first == 1 {
                    assert(!is_digit(cs@[0]));
                }
            }
            if first == 1 {
                assert(cs@.drop_first() =~= digits);
            }
            return None;
        }
        let d = (c as u32 - '0' as u32) as i64;
        assert(cs@.subrange(first as int, i + 1).drop_last() =~= cs@.subrange(
            first as int,
            i as int,
        ));
        let next = acc * 10 + d;
        acc = if next > CAP {
            CAP
        } else {
            next
        };
        i = i + 1;
    }
    assert(cs@.subrange(first as int, n as int) =~= digits);
    assert(all_digits(digits));
    if first == 1 {
        assert(cs@.drop_first() =~= digits);
    } else {
        assert(cs@ =~= digits);
    }
    if acc == CAP {
        None
    } else if neg {
        Some((-acc) as i32)
    } else if acc <= i32::MAX as i64 {
        Some(acc as i32)
    } else {
        None
    }
}

/// The tokens of `input`: its maximal runs of non-whitespace characters.
pub fn split_tokens<'a>(input: &'a str) -> (r: Vec<&'a str>)
    ensures
        r@.len() == words_of(input@).len(),
        forall|i: int| 0 <= i < r@.len() ==> (#[trigger] r@[i])@ == words_of(input@)[i],
{
    let cs = chars_of(input);
    let n = cs.len();
    let mut toks: Vec<&'a str> = Vec::new();
    let mut start: usize = 0;
    let mut in_word = false;
    let mut i: usize = 0;
    while i < n
        invariant
            n == cs@.len(),
            cs@ == input@,
            i <= n,
            in_word ==> start < i && !white_space(cs@[i - 1]),
            !in_word ==> i == 0 || white_space(cs@[i - 1]),
            words_of(cs@.take(i as int)) == (if in_word {
                views_of(toks@).push(cs@.subrange(start as int, i as int))
            } else {
                views_of(toks@)
            }),
        decreases n - i,
    {
        let c = cs[i];
        let ghost pre = cs@.take(i as int);
        let ghost cur = cs@.take(i + 1);
        assert(cur.drop_last() =~= pre);
        assert(cur.last() == c);
        if is_white_space(c) {
            if in_word {
                let ghost before = toks@;
                let t = input.substring_char(start, i);
                toks.push(t);
                assert(views_of(toks@) =~= views_of(before).push(t@));
            }
            in_word = false;
        } else {
            if in_word {
                assert(cur[i - 1] == cs@[i - 1]);
                assert(cs@.subrange(start as int, i + 1) =~= cs@.subrange(
                    start as int,
                    i as int,
                ).push(c));
            } else {
                assert(cs@.subrange(i as int, i + 1) =~= seq![c]);
                start = i;
                in_word = true;
            }
        }
        i = i + 1;
    }
    if in_word {
        let ghost before = toks@;
        let t = input.substring_char(start, n);
        toks.push(t);
        assert(views_of(toks@) =~= views_of(before).push(t@));
    }
    assert(cs@.take(n as int) =~= cs@);
    toks
}

/// Relies on `str::to_ascii_uppercase`: ASCII `a` to `z` become `A` to `Z`, every
/// other character is kept.
#[verifier::external_body]
pub(crate) fn to_upper(s: &str) -> (r: String)
    ensures
        r@ == ascii_upper(s@),
{
    s.to_ascii_uppercase()
}

} // verus!
