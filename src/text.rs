//! Character classes, scanning of character runs, and conversions between
//! `str` and sequences of characters.
use vstd::prelude::*;
use vstd::std_specs::iter::IteratorSpec;

verus! {

broadcast use vstd::string::axiom_spec_iter, vstd::string::next_postcondition;

/// The classes of characters that the grammar scans runs of.
#[derive(Clone, Copy, PartialEq, Eq, Structural, Debug)]
pub enum CharClass {
    /// ASCII decimal digits.
    Digit,
    /// ASCII letters and digits.
    AlphaNumeric,
    /// Visible characters (code point at least 0x20) other than `!`.
    IconText,
    /// Visible characters other than `"` and `\`.
    Wrapped,
    /// Visible characters other than `"`, `\`, `]`, `,` and `)`.
    Unwrapped,
    /// Any character but `,`.
    NotComma,
    /// Any character but `\n` and `\r`.
    NotLineEnd,
}

pub open spec fn is_digit(c: char) -> bool {
    '0' as u32 <= c as u32 <= '9' as u32
}

pub open spec fn is_alphanumeric(c: char) -> bool {
    is_digit(c) || ('a' as u32 <= c as u32 <= 'z' as u32) || ('A' as u32 <= c as u32 <= 'Z' as u32)
}

pub open spec fn is_visible(c: char) -> bool {
    c as u32 >= 0x20
}

pub open spec fn is_wrapped(c: char) -> bool {
    is_visible(c) && c != '"' && c != '\\'
}

pub open spec fn is_unwrapped(c: char) -> bool {
    is_wrapped(c) && c != ']' && c != ',' && c != ')'
}

pub open spec fn in_class(k: CharClass, c: char) -> bool {
    match k {
        CharClass::Digit => is_digit(c),
        CharClass::AlphaNumeric => is_alphanumeric(c),
        CharClass::IconText => is_visible(c) && c != '!',
        CharClass::Wrapped => is_wrapped(c),
        CharClass::Unwrapped => is_unwrapped(c),
        CharClass::NotComma => c != ',',
        CharClass::NotLineEnd => c != '\n' && c != '\r',
    }
}

/// The length of the longest prefix of `s` whose characters all lie in `k`.
pub open spec fn span(s: Seq<char>, k: CharClass) -> nat
    decreases s.len(),
{
    if s.len() > 0 && in_class(k, s[0]) {
        1 + span(s.drop_first(), k)
    } else {
        0
    }
}

/// `span` counts exactly the leading run of class `k`.
pub proof fn lemma_span(s: Seq<char>, k: CharClass)
    ensures
        span(s, k) <= s.len(),
        forall|j: int| 0 <= j < span(s, k) ==> in_class(k, #[trigger] s[j]),
        span(s, k) < s.len() ==> !in_class(k, s[span(s, k) as int]),
    decreases s.len(),
{
    if s.len() > 0 && in_class(k, s[0]) {
        lemma_span(s.drop_first(), k);
        assert forall|j: int| 0 <= j < span(s, k) implies in_class(k, #[trigger] s[j]) by {
            if j > 0 {
                assert(s[j] == s.drop_first()[j - 1]);
            }
        }
    }
}

/// Two sequences that agree on the run of class `k` at the start of the
/// first, and whose next characters both end that run, have runs of the same
/// length.
pub proof fn lemma_span_same(a: Seq<char>, b: Seq<char>, k: CharClass, n: int)
    requires
        n == span(a, k),
        n <= b.len(),
        a.take(n) == b.take(n),
        n == b.len() || !in_class(k, b[n]),
    ensures
        span(b, k) == n,
    decreases n,
{
    lemma_span(a, k);
    if n > 0 {
        assert(a.take(n)[0] == a[0]);
        assert(b.take(n)[0] == b[0]);
        assert(a.drop_first().take(n - 1) =~= b.drop_first().take(n - 1)) by {
            assert forall|j: int| 0 <= j < n - 1 implies #[trigger] a.drop_first().take(n - 1)[j]
                == b.drop_first().take(n - 1)[j] by {
                assert(a.take(n)[j + 1] == a[j + 1]);
                assert(b.take(n)[j + 1] == b[j + 1]);
                assert(a.take(n)[j + 1] == b.take(n)[j + 1]);
            }
        }
        lemma_span_same(a.drop_first(), b.drop_first(), k, n - 1);
    }
}

/// Whether `c` lies in class `k`.
pub fn char_in_class(k: CharClass, c: char) -> (r: bool)
    ensures
        r == in_class(k, c),
{
    let v = c as u32;
    match k {
        CharClass::Digit => '0' as u32 <= v && v <= '9' as u32,
        CharClass::AlphaNumeric => ('0' as u32 <= v && v <= '9' as u32) || ('a' as u32 <= v && v
            <= 'z' as u32) || ('A' as u32 <= v && v <= 'Z' as u32),
        CharClass::IconText => v >= 0x20 && c != '!',
        CharClass::Wrapped => v >= 0x20 && c != '"' && c != '\\',
        CharClass::Unwrapped => v >= 0x20 && c != '"' && c != '\\' && c != ']' && c != ','
            && c != ')',
        CharClass::NotComma => c != ',',
        CharClass::NotLineEnd => c != '\n' && c != '\r',
    }
}

/// The end of the run of class `k` that starts at `pos`.
pub fn scan(s: &Vec<char>, pos: usize, k: CharClass) -> (end: usize)
    requires
        pos <= s.len(),
    ensures
        end == pos + span(s@.skip(pos as int), k),
        end <= s.len(),
{
    let mut p: usize = pos;
    while p < s.len() && char_in_class(k, s[p])
        invariant
            pos <= p <= s.len(),
            span(s@.skip(pos as int), k) == (p - pos) + span(s@.skip(p as int), k),
        decreases s.len() - p,
    {
        assert(s@.skip(p as int).drop_first() =~= s@.skip(p + 1));
        p = p + 1;
    }
    proof {
        lemma_span(s@.skip(p as int), k);
    }
    p
}

/// Whether `s` holds `c` at `pos`.
pub fn char_at(s: &Vec<char>, pos: usize, c: char) -> (r: bool)
    ensures
        r == (pos < s.len() && s@[pos as int] == c),
{
    pos < s.len() && s[pos] == c
}

/// The characters of `s`, in order.
pub fn chars_of(s: &str) -> (r: Vec<char>)
    ensures
        r@ == s@,
{
    let mut it = s.chars();
    let mut v: Vec<char> = Vec::new();
    loop
        invariant
            v@ + it.remaining() == s@,
            it.decrease() is Some,
        ensures
            v@ == s@,
        decreases it.decrease()->0,
    {
        match it.next() {
            Some(c) => v.push(c),
            None => {
                assert(v@ + it.remaining() =~= v@);
                break;
            },
        }
    }
    v
}

/// Relies on std's `FromIterator<&char>` for `String`: the string holds the
/// collected characters in order.
#[verifier::external_body]
pub fn string_of(s: &Vec<char>, start: usize, end: usize) -> (r: String)
    requires
        start <= end <= s.len(),
    ensures
        r@ == s@.subrange(start as int, end as int),
{
    s[start..end].iter().collect()
}

} // verus!
