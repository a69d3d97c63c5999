//! The cell grammar: one comma-delimited token of a log line decoded into a
//! typed value, with arrays of cells decoded recursively.
use vstd::prelude::*;

use crate::text::{
    CharClass, char_at, chars_of, in_class, is_digit, is_unwrapped, is_visible, is_wrapped,
    lemma_span, lemma_span_same, scan, span, string_of,
};

verus! {

/// The mathematical value of a decoded cell.
pub enum Value {
    Integer(int),
    /// A decimal literal `[-]digits.digits`, kept as written.
    Float(Seq<char>),
    MultiPower(int, int),
    Str(Seq<char>),
    Array(Seq<Value>),
}

/// One decoded cell of a log line.
#[derive(Debug, PartialEq)]
pub enum LogCell {
    Integer(i64),
    /// A decimal literal `[-]digits.digits`, kept as written.
    Float(String),
    /// A resource-type / amount pair written `a|b`.
    MultiPowerCell(i64, i64),
    Str(String),
    Array(Vec<LogCell>),
}

/// Why a line, or a part of one, could not be decoded.
#[derive(Debug, Clone, Copy, PartialEq, Eq, Structural)]
pub enum LogError {
    /// No alternative of the grammar matches at the current position.
    Grammar,
    /// The body of an event holds no comma, so it names no event type.
    MissingEventTag,
    /// An event body decoded to a number of cells other than its record's.
    Arity { expected: usize, actual: usize },
    /// The timestamp and the event body could not be told apart.
    Framing,
}

pub open spec fn cell_view(c: LogCell) -> Value
    decreases c,
{
    match c {
        LogCell::Integer(v) => Value::Integer(v as int),
        LogCell::Float(t) => Value::Float(t@),
        LogCell::MultiPowerCell(a, b) => Value::MultiPower(a as int, b as int),
        LogCell::Str(t) => Value::Str(t@),
        LogCell::Array(v) => Value::Array(cells_view(v@)),
    }
}

pub open spec fn cells_view(s: Seq<LogCell>) -> Seq<Value>
    decreases s,
{
    if s.len() == 0 {
        Seq::empty()
    } else {
        cells_view(s.drop_last()).push(cell_view(s.last()))
    }
}

impl View for LogCell {
    type V = Value;

    open spec fn view(&self) -> Value {
        cell_view(*self)
    }
}

pub proof fn lemma_cells_view(s: Seq<LogCell>)
    ensures
        cells_view(s).len() == s.len(),
        forall|i: int| 0 <= i < s.len() ==> #[trigger] cells_view(s)[i] == cell_view(s[i]),
    decreases s.len(),
{
    if s.len() > 0 {
        lemma_cells_view(s.drop_last());
    }
}

pub proof fn lemma_cells_view_push(s: Seq<LogCell>, c: LogCell)
    ensures
        cells_view(s.push(c)) == cells_view(s).push(cell_view(c)),
{
    assert(s.push(c).drop_last() =~= s);
}

/// The value of a character taken as a decimal digit (zero for any other).
pub open spec fn digit_value(c: char) -> int {
    if is_digit(c) {
        c as u32 - '0' as u32
    } else {
        0
    }
}

/// The number that a run of decimal digits denotes.
pub open spec fn digits_value(d: Seq<char>) -> int
    decreases d.len(),
{
    if d.len() == 0 {
        0
    } else {
        digits_value(d.drop_last()) * 10 + digit_value(d.last())
    }
}

pub proof fn lemma_digits_value_nonneg(d: Seq<char>)
    ensures
        digits_value(d) >= 0,
    decreases d.len(),
{
    if d.len() > 0 {
        lemma_digits_value_nonneg(d.drop_last());
    }
}

pub open spec fn fits_i64(v: int) -> bool {
    i64::MIN <= v <= i64::MAX
}

/// `[-]digits` read as a 64-bit signed integer.
pub open spec fn integer_lit(s: Seq<char>) -> Option<(Value, int)> {
    let start: int = if s.len() > 0 && s[0] == '-' { 1 } else { 0 };
    let n = span(s.skip(start), CharClass::Digit) as int;
    let mag = digits_value(s.subrange(start as int, start + n));
    let v = if start == 1 { -mag } else { mag };
    if start <= s.len() && n > 0 && fits_i64(v) {
        Some((Value::Integer(v), start + n))
    } else {
        None
    }
}

/// `[-]digits.digits`, kept as written.
pub open spec fn float_lit(s: Seq<char>) -> Option<(Value, int)> {
    let start: int = if s.len() > 0 && s[0] == '-' { 1 } else { 0 };
    let n = span(s.skip(start), CharClass::Digit) as int;
    let dot = start + n;
    if start <= s.len() && n > 0 && dot < s.len() && s[dot] == '.' {
        let m = span(s.skip(dot + 1), CharClass::Digit) as int;
        if m > 0 {
            Some((Value::Float(s.take(dot + 1 + m)), dot + 1 + m))
        } else {
            None
        }
    } else {
        None
    }
}

/// `digits|digits`, each side read as a 64-bit signed integer.
pub open spec fn multi_power_lit(s: Seq<char>) -> Option<(Value, int)> {
    let n = span(s, CharClass::Digit) as int;
    if n > 0 && n < s.len() && s[n] == '|' {
        let m = span(s.skip(n + 1), CharClass::Digit) as int;
        let a = digits_value(s.take(n));
        let b = digits_value(s.subrange(n + 1, n + 1 + m));
        if m > 0 && a <= i64::MAX && b <= i64::MAX {
            Some((Value::MultiPower(a, b), n + 1 + m))
        } else {
            None
        }
    } else {
        None
    }
}

/// A number: the first of a multi-power pair, a decimal and an integer that
/// matches.
pub open spec fn number_lit(s: Seq<char>) -> Option<(Value, int)> {
    if multi_power_lit(s) is Some {
        multi_power_lit(s)
    } else if float_lit(s) is Some {
        float_lit(s)
    } else {
        integer_lit(s)
    }
}

/// `0x` and one or more letters or digits, kept as written.
pub open spec fn hex_lit(s: Seq<char>) -> Option<(Value, int)> {
    if s.len() >= 2 && s[0] == '0' && s[1] == 'x' {
        let n = span(s.skip(2), CharClass::AlphaNumeric) as int;
        if n > 0 {
            Some((Value::Str(s.take(2 + n)), 2 + n))
        } else {
            None
        }
    } else {
        None
    }
}

/// A string: an icon escape `|T...!`, a quoted run `"..."` (the quotes are
/// not part of the value), or an unquoted run that stops at any delimiter.
/// Only `|T` opens an icon escape; any other `|` starts an unquoted run.
pub open spec fn string_lit(s: Seq<char>) -> Option<(Value, int)> {
    if s.len() == 0 {
        None
    } else if s[0] == '|' && s.len() >= 2 && s[1] == 'T' {
        let n = span(s.skip(2), CharClass::IconText) as int;
        if n > 0 && 2 + n < s.len() && s[2 + n] == '!' {
            Some((Value::Str(s.subrange(2, 2 + n)), 3 + n))
        } else {
            None
        }
    } else if s[0] == '"' {
        let n = span(s.skip(1), CharClass::Wrapped) as int;
        if n > 0 && 1 + n < s.len() && s[1 + n] == '"' {
            Some((Value::Str(s.subrange(1, 1 + n)), 2 + n))
        } else {
            None
        }
    } else {
        let n = span(s, CharClass::Unwrapped) as int;
        if n > 0 {
            Some((Value::Str(s.take(n)), n))
        } else {
            None
        }
    }
}

/// Whether a character starts a number (`9` does not: it starts a string).
pub open spec fn starts_number(c: char) -> bool {
    c == '-' || ('0' as u32 <= c as u32 <= '8' as u32)
}

/// One cell at the start of `s`, with the number of characters it takes.
pub open spec fn cell_lit(s: Seq<char>) -> Option<(Value, int)>
    decreases s.len(), 1int,
{
    if s.len() == 0 {
        None
    } else if s[0] == '[' {
        array_lit(s, '[', ']')
    } else if s[0] == '(' {
        array_lit(s, '(', ')')
    } else if s[0] == '0' && s.len() >= 2 && s[1] == 'x' {
        hex_lit(s)
    } else if starts_number(s[0]) {
        number_lit(s)
    } else {
        string_lit(s)
    }
}

/// `open`, a comma-separated list of zero or more cells, then `close`.
pub open spec fn array_lit(s: Seq<char>, open: char, close: char) -> Option<(Value, int)>
    decreases s.len(), 0int,
{
    if s.len() > 0 && s[0] == open {
        let items = list_lit(s.drop_first());
        if 1 + items.1 < s.len() && s[1 + items.1] == close {
            Some((Value::Array(items.0), items.1 + 2))
        } else {
            None
        }
    } else {
        None
    }
}

/// The longest comma-separated list of cells at the start of `s` (possibly
/// empty), with the number of characters it takes.
pub open spec fn list_lit(s: Seq<char>) -> (Seq<Value>, int)
    decreases s.len(), 2int,
{
    match cell_lit(s) {
        Some(first) => if 0 <= first.1 <= s.len() {
            let rest = list_tail(s.skip(first.1));
            (seq![first.0] + rest.0, first.1 + rest.1)
        } else {
            (Seq::empty(), 0)
        },
        None => (Seq::empty(), 0),
    }
}

/// The longest run of `,cell` at the start of `s`.
pub open spec fn list_tail(s: Seq<char>) -> (Seq<Value>, int)
    decreases s.len(), 0int,
{
    if s.len() > 0 && s[0] == ',' {
        match cell_lit(s.drop_first()) {
            Some(next) => if 0 <= next.1 < s.len() {
                let rest = list_tail(s.skip(1 + next.1));
                (seq![next.0] + rest.0, 1 + next.1 + rest.1)
            } else {
                (Seq::empty(), 0)
            },
            None => (Seq::empty(), 0),
        }
    } else {
        (Seq::empty(), 0)
    }
}

/// Whether `r` is the decoding that `expect` describes, for input that
/// starts at `pos`.
pub open spec fn parsed_as(r: Option<(LogCell, usize)>, expect: Option<(Value, int)>, pos: usize) -> bool {
    match r {
        None => expect is None,
        Some(p) => expect == Some((p.0@, p.1 - pos)),
    }
}

/// One more than the largest magnitude that a 64-bit signed integer holds.
const DIGITS_CAP: u128 = 9223372036854775809;

/// The number that the digits in `s[start..end]` denote, capped at `DIGITS_CAP`.
fn digits_capped(s: &Vec<char>, start: usize, end: usize) -> (r: u128)
    requires
        start <= end <= s.len(),
    ensures
        r == if digits_value(s@.subrange(start as int, end as int)) < DIGITS_CAP {
            digits_value(s@.subrange(start as int, end as int))
        } else {
            DIGITS_CAP as int
        },
{
    let mut acc: u128 = 0;
    let mut i: usize = start;
    while i < end
        invariant
            start <= i <= end <= s.len(),
            acc <= DIGITS_CAP,
            acc == if digits_value(s@.subrange(start as int, i as int)) < DIGITS_CAP {
                digits_value(s@.subrange(start as int, i as int))
            } else {
                DIGITS_CAP as int
            },
        decreases end - i,
    {
        let c = s[i];
        let d: u128 = if '0' as u32 <= c as u32 && c as u32 <= '9' as u32 {
            (c as u32 - '0' as u32) as u128
        } else {
            0
        };
        proof {
            let prev = s@.subrange(start as int, i as int);
            let next = s@.subrange(start as int, i + 1);
            assert(next.drop_last() =~= prev);
            assert(next.last() == c);
            lemma_digits_value_nonneg(prev);
        }
        if acc >= DIGITS_CAP {
            acc = DIGITS_CAP;
        } else {
            let v = acc * 10 + d;
            acc = if v >= DIGITS_CAP { DIGITS_CAP } else { v };
        }
        i = i + 1;
    }
    acc
}

fn integer_at(s: &Vec<char>, pos: usize) -> (r: Option<(LogCell, usize)>)
    requires
        pos <= s.len(),
    ensures
        parsed_as(r, integer_lit(s@.skip(pos as int)), pos),
        r matches Some(p) ==> pos < p.1 <= s.len(),
{
    let ghost t = s@.skip(pos as int);
    let neg = char_at(s, pos, '-');
    let start: usize = if neg { pos + 1 } else { pos };
    let end = scan(s, start, CharClass::Digit);
    proof {
        let st: int = start - pos;
        assert(t.skip(st) =~= s@.skip(start as int));
        assert(t.subrange(st, end - pos) =~= s@.subrange(start as int, end as int));
    }
    if end == start {
        return None;
    }
    let mag = digits_capped(s, start, end);
    if neg {
        if mag <= 9223372036854775808 {
            let v: i64 = if mag == 9223372036854775808 {
                i64::MIN
            } else {
                -(mag as i64)
            };
            Some((LogCell::Integer(v), end))
        } else {
            None
        }
    } else {
        if mag <= 9223372036854775807 {
            Some((LogCell::Integer(mag as i64), end))
        } else {
            None
        }
    }
}

fn float_at(s: &Vec<char>, pos: usize) -> (r: Option<(LogCell, usize)>)
    requires
        pos <= s.len(),
    ensures
        parsed_as(r, float_lit(s@.skip(pos as int)), pos),
        r matches Some(p) ==> pos < p.1 <= s.len(),
{
    let ghost t = s@.skip(pos as int);
    let neg = char_at(s, pos, '-');
    let start: usize = if neg { pos + 1 } else { pos };
    let dot = scan(s, start, CharClass::Digit);
    proof {
        assert(t.skip(start - pos) =~= s@.skip(start as int));
    }
    if dot == start || !char_at(s, dot, '.') {
        return None;
    }
    let end = scan(s, dot + 1, CharClass::Digit);
    proof {
        assert(t.skip(dot + 1 - pos) =~= s@.skip(dot + 1));
        assert(t.take(end - pos) =~= s@.subrange(pos as int, end as int));
    }
    if end == dot + 1 {
        return None;
    }
    Some((LogCell::Float(string_of(s, pos, end)), end))
}

fn multi_power_at(s: &Vec<char>, pos: usize) -> (r: Option<(LogCell, usize)>)
    requires
        pos <= s.len(),
    ensures
        parsed_as(r, multi_power_lit(s@.skip(pos as int)), pos),
        r matches Some(p) ==> pos < p.1 <= s.len(),
{
    let ghost t = s@.skip(pos as int);
    let bar = scan(s, pos, CharClass::Digit);
    if bar == pos || !char_at(s, bar, '|') {
        return None;
    }
    let end = scan(s, bar + 1, CharClass::Digit);
    proof {
        assert(t.skip(bar + 1 - pos) =~= s@.skip(bar + 1));
        assert(t.take(bar - pos) =~= s@.subrange(pos as int, bar as int));
        assert(t.subrange(bar + 1 - pos, end - pos) =~= s@.subrange(bar + 1, end as int));
    }
    if end == bar + 1 {
        return None;
    }
    let a = digits_capped(s, pos, bar);
    let b = digits_capped(s, bar + 1, end);
    if a <= 9223372036854775807 && b <= 9223372036854775807 {
        Some((LogCell::MultiPowerCell(a as i64, b as i64), end))
    } else {
        None
    }
}

fn number_at(s: &Vec<char>, pos: usize) -> (r: Option<(LogCell, usize)>)
    requires
        pos <= s.len(),
    ensures
        parsed_as(r, number_lit(s@.skip(pos as int)), pos),
        r matches Some(p) ==> pos < p.1 <= s.len(),
{
    let m = multi_power_at(s, pos);
    if m.is_some() {
        return m;
    }
    let f = float_at(s, pos);
    if f.is_some() {
        return f;
    }
    integer_at(s, pos)
}

fn hex_at(s: &Vec<char>, pos: usize) -> (r: Option<(LogCell, usize)>)
    requires
        pos <= s.len(),
    ensures
        parsed_as(r, hex_lit(s@.skip(pos as int)), pos),
        r matches Some(p) ==> pos < p.1 <= s.len(),
{
    let ghost t = s@.skip(pos as int);
    if !(char_at(s, pos, '0') && char_at(s, pos + 1, 'x')) {
        return None;
    }
    let end = scan(s, pos + 2, CharClass::AlphaNumeric);
    proof {
        assert(t.skip(2) =~= s@.skip(pos + 2));
        assert(t.take(end - pos) =~= s@.subrange(pos as int, end as int));
    }
    if end == pos + 2 {
        return None;
    }
    Some((LogCell::Str(string_of(s, pos, end)), end))
}

fn string_at(s: &Vec<char>, pos: usize) -> (r: Option<(LogCell, usize)>)
    requires
        pos <= s.len(),
    ensures
        parsed_as(r, string_lit(s@.skip(pos as int)), pos),
        r matches Some(p) ==> pos < p.1 <= s.len(),
{
    let ghost t = s@.skip(pos as int);
    if pos >= s.len() {
        return None;
    }
    if s[pos] == '|' && char_at(s, pos + 1, 'T') {
        let end = scan(s, pos + 2, CharClass::IconText);
        proof {
            assert(t.skip(2) =~= s@.skip(pos + 2));
            assert(t.subrange(2, end - pos) =~= s@.subrange(pos + 2, end as int));
        }
        if end == pos + 2 || !char_at(s, end, '!') {
            return None;
        }
        Some((LogCell::Str(string_of(s, pos + 2, end)), end + 1))
    } else if s[pos] == '"' {
        let end = scan(s, pos + 1, CharClass::Wrapped);
        proof {
            assert(t.skip(1) =~= s@.skip(pos + 1));
            assert(t.subrange(1, end - pos) =~= s@.subrange(pos + 1, end as int));
        }
        if end == pos + 1 || !char_at(s, end, '"') {
            return None;
        }
        Some((LogCell::Str(string_of(s, pos + 1, end)), end + 1))
    } else {
        let end = scan(s, pos, CharClass::Unwrapped);
        proof {
            assert(t.take(end - pos) =~= s@.subrange(pos as int, end as int));
        }
        if end == pos {
            return None;
        }
        Some((LogCell::Str(string_of(s, pos, end)), end))
    }
}

pub(crate) fn cell_at(s: &Vec<char>, pos: usize) -> (r: Option<(LogCell, usize)>)
    requires
        pos <= s.len(),
    ensures
        parsed_as(r, cell_lit(s@.skip(pos as int)), pos),
        r matches Some(p) ==> pos < p.1 <= s.len(),
    decreases s.len() - pos, 1int,
{
    if pos >= s.len() {
        return None;
    }
    let c = s[pos];
    if c == '[' {
        array_at(s, pos, '[', ']')
    } else if c == '(' {
        array_at(s, pos, '(', ')')
    } else if c == '0' && char_at(s, pos + 1, 'x') {
        hex_at(s, pos)
    } else if c == '-' || ('0' as u32 <= c as u32 && c as u32 <= '8' as u32) {
        number_at(s, pos)
    } else {
        string_at(s, pos)
    }
}

fn array_at(s: &Vec<char>, pos: usize, open: char, close: char) -> (r: Option<(LogCell, usize)>)
    requires
        pos <= s.len(),
    ensures
        parsed_as(r, array_lit(s@.skip(pos as int), open, close), pos),
        r matches Some(p) ==> pos < p.1 <= s.len(),
    decreases s.len() - pos, 0int,
{
    let ghost t = s@.skip(pos as int);
    if !char_at(s, pos, open) {
        return None;
    }
    let (items, end) = list_at(s, pos + 1);
    proof {
        assert(t.drop_first() =~= s@.skip(pos + 1));
    }
    if char_at(s, end, close) {
        Some((LogCell::Array(items), end + 1))
    } else {
        None
    }
}

pub(crate) fn list_at(s: &Vec<char>, pos: usize) -> (r: (Vec<LogCell>, usize))
    requires
        pos <= s.len(),
    ensures
        cells_view(r.0@) == list_lit(s@.skip(pos as int)).0,
        r.1 - pos == list_lit(s@.skip(pos as int)).1,
        pos <= r.1 <= s.len(),
    decreases s.len() - pos, 2int,
{
    let ghost t = s@.skip(pos as int);
    let mut items: Vec<LogCell> = Vec::new();
    let first = cell_at(s, pos);
    match first {
        None => {
            return (items, pos);
        },
        Some((c, e)) => {
            proof {
                assert(t.skip(e - pos) =~= s@.skip(e as int));
                lemma_cells_view_push(items@, c);
            }
            items.push(c);
            let mut p: usize = e;
            proof {
                assert(cells_view(items@) =~= seq![cell_view(c)]);
            }
            loop
                invariant
                    pos < p <= s.len(),
                    list_lit(t).0 == cells_view(items@) + list_tail(s@.skip(p as int)).0,
                    list_lit(t).1 == (p - pos) + list_tail(s@.skip(p as int)).1,
                ensures
                    list_lit(t).0 == cells_view(items@),
                    list_lit(t).1 == p - pos,
                    pos < p <= s.len(),
                decreases s.len() - p,
            {
                let ghost u = s@.skip(p as int);
                if !char_at(s, p, ',') {
                    assert(cells_view(items@) + Seq::<Value>::empty() =~= cells_view(items@));
                    break;
                }
                proof {
                    assert(u.drop_first() =~= s@.skip(p + 1));
                }
                match cell_at(s, p + 1) {
                    None => {
                        assert(cells_view(items@) + Seq::<Value>::empty() =~= cells_view(items@));
                        break;
                    },
                    Some((c2, e2)) => {
                        proof {
                            assert(u.skip(e2 - p) =~= s@.skip(e2 as int));
                            lemma_cells_view_push(items@, c2);
                            let rest = list_tail(s@.skip(e2 as int)).0;
                            assert(cells_view(items@) + (seq![cell_view(c2)] + rest) =~= cells_view(
                                items@,
                            ).push(cell_view(c2)) + rest);
                        }
                        items.push(c2);
                        p = e2;
                    },
                }
            }
            (items, p)
        },
    }
}

/// Whether a decoded value counts as a set flag: a number that is not zero
/// (for a pair, its first element), a string or an array that is not empty.
/// A bare token such as `nil` is a non-empty string, and so counts as set.
pub open spec fn truthy(v: Value) -> bool {
    match v {
        Value::Integer(i) => i != 0,
        Value::Float(t) => has_nonzero(t),
        Value::MultiPower(a, _) => a != 0,
        Value::Str(t) => t.len() > 0,
        Value::Array(items) => items.len() > 0,
    }
}

/// Whether some digit of `t` is not zero.
pub open spec fn has_nonzero(t: Seq<char>) -> bool {
    exists|i: int| 0 <= i < t.len() && digit_value(t[i]) != 0
}

/// Whether some digit of `t` is not zero.
fn has_nonzero_digit(t: &String) -> (r: bool)
    ensures
        r == has_nonzero(t@),
{
    let cs = chars_of(t.as_str());
    let mut i: usize = 0;
    while i < cs.len()
        invariant
            i <= cs.len(),
            cs@ == t@,
            forall|j: int| 0 <= j < i ==> digit_value(#[trigger] cs@[j]) == 0,
        decreases cs.len() - i,
    {
        let c = cs[i];
        if '1' as u32 <= c as u32 && c as u32 <= '9' as u32 {
            assert(digit_value(t@[i as int]) != 0);
            return true;
        }
        i = i + 1;
    }
    false
}

impl LogCell {
    /// Whether this cell counts as a set flag (see `truthy`).
    pub fn is_truthy(&self) -> (r: bool)
        ensures
            r == truthy(self@),
    {
        match self {
            LogCell::Integer(v) => *v != 0,
            LogCell::Float(t) => has_nonzero_digit(t),
            LogCell::MultiPowerCell(a, _) => *a != 0,
            LogCell::Str(t) => !t.as_str().is_empty(),
            LogCell::Array(items) => {
                proof {
                    lemma_cells_view(items@);
                }
                items.len() != 0
            },
        }
    }
}

impl From<LogCell> for bool {
    fn from(cell: LogCell) -> (r: bool) {
        cell.is_truthy()
    }
}

impl vstd::std_specs::convert::FromSpecImpl<LogCell> for bool {
    open spec fn obeys_from_spec() -> bool {
        true
    }

    open spec fn from_spec(cell: LogCell) -> bool {
        truthy(cell@)
    }
}

/// Whether `r` is what decoding `s` gives when the grammar describes the
/// outcome as `expect`: the value and the input that follows it, or a
/// grammar error.
pub open spec fn decoded(r: Result<(String, LogCell), LogError>, s: Seq<char>, expect: Option<(Value, int)>) -> bool {
    match expect {
        None => r == Err::<(String, LogCell), LogError>(LogError::Grammar),
        Some(p) => match r {
            Ok(ok) => ok.1@ == p.0 && ok.0@ == s.skip(p.1),
            Err(_) => false,
        },
    }
}

fn finish(s: &Vec<char>, r: Option<(LogCell, usize)>) -> (out: Result<(String, LogCell), LogError>)
    requires
        r matches Some(p) ==> p.1 <= s.len(),
    ensures
        forall|expect: Option<(Value, int)>| parsed_as(r, expect, 0) ==> decoded(out, s@, expect),
{
    match r {
        None => Err(LogError::Grammar),
        Some((c, e)) => Ok((string_of(s, e, s.len()), c)),
    }
}

/// Decodes one cell at the start of `input`; returns the rest of the input
/// and the cell.
pub fn parse_log_cell(input: &str) -> (r: Result<(String, LogCell), LogError>)
    ensures
        decoded(r, input@, cell_lit(input@)),
{
    let s = chars_of(input);
    let c = cell_at(&s, 0);
    proof {
        assert(s@.skip(0) =~= s@);
    }
    finish(&s, c)
}

/// Decodes an array opened by `start_delimiter` and closed by `end_delimiter`
/// at the start of `input`.
pub fn parse_array(input: &str, start_delimiter: char, end_delimiter: char) -> (r: Result<
    (String, LogCell),
    LogError,
>)
    ensures
        decoded(r, input@, array_lit(input@, start_delimiter, end_delimiter)),
{
    let s = chars_of(input);
    let c = array_at(&s, 0, start_delimiter, end_delimiter);
    proof {
        assert(s@.skip(0) =~= s@);
    }
    finish(&s, c)
}

/// Decodes a string cell (icon escape, quoted or unquoted) at the start of
/// `input`.
pub fn parse_string(input: &str) -> (r: Result<(String, LogCell), LogError>)
    ensures
        decoded(r, input@, string_lit(input@)),
{
    let s = chars_of(input);
    let c = string_at(&s, 0);
    proof {
        assert(s@.skip(0) =~= s@);
    }
    finish(&s, c)
}

/// Decodes a number at the start of `input`: a multi-power pair, else a
/// decimal, else an integer.
pub fn parse_number(input: &str) -> (r: Result<(String, LogCell), LogError>)
    ensures
        decoded(r, input@, number_lit(input@)),
{
    let s = chars_of(input);
    let c = number_at(&s, 0);
    proof {
        assert(s@.skip(0) =~= s@);
    }
    finish(&s, c)
}

/// Decodes `[-]digits` at the start of `input` as a 64-bit signed integer.
pub fn parse_integer(input: &str) -> (r: Result<(String, LogCell), LogError>)
    ensures
        decoded(r, input@, integer_lit(input@)),
{
    let s = chars_of(input);
    let c = integer_at(&s, 0);
    proof {
        assert(s@.skip(0) =~= s@);
    }
    finish(&s, c)
}

/// Decodes `[-]digits.digits` at the start of `input`.
pub fn parse_float(input: &str) -> (r: Result<(String, LogCell), LogError>)
    ensures
        decoded(r, input@, float_lit(input@)),
{
    let s = chars_of(input);
    let c = float_at(&s, 0);
    proof {
        assert(s@.skip(0) =~= s@);
    }
    finish(&s, c)
}

/// Decodes `digits|digits` at the start of `input`.
pub fn parse_multi_power(input: &str) -> (r: Result<(String, LogCell), LogError>)
    ensures
        decoded(r, input@, multi_power_lit(input@)),
{
    let s = chars_of(input);
    let c = multi_power_at(&s, 0);
    proof {
        assert(s@.skip(0) =~= s@);
    }
    finish(&s, c)
}

/// Whether `c` is a visible character (code point at least 0x20).
pub fn is_valid_emote(c: char) -> (r: bool)
    ensures
        r == is_visible(c),
{
    c as u32 >= 0x20
}

/// Whether `c` may stand inside a quoted string.
pub fn is_valid_wrapped(c: char) -> (r: bool)
    ensures
        r == is_wrapped(c),
{
    let v = c as u32;
    v >= 0x20 && v != 0x22 && v != 0x5C
}

/// Whether `c` may stand in an unquoted string.
pub fn is_valid_unwrapped(c: char) -> (r: bool)
    ensures
        r == is_unwrapped(c),
{
    let v = c as u32;
    v >= 0x20 && v != 0x22 && v != 0x5C && v != 0x5D && v != 0x2C && v != 0x29
}

/// A character at which every cell ends: a comma or a closing delimiter.
pub open spec fn is_stop(c: char) -> bool {
    c == ',' || c == ']' || c == ')'
}

/// A closing delimiter of an array.
pub open spec fn is_closer(c: char) -> bool {
    c == ']' || c == ')'
}

/// Whether position `n` of `s` is its end or holds a stop character.
pub open spec fn ends_cell(s: Seq<char>, n: int) -> bool {
    n == s.len() || (0 <= n < s.len() && is_stop(s[n]))
}

proof fn lemma_take_skip(s1: Seq<char>, s2: Seq<char>, n: int, p: int)
    requires
        0 <= p <= n <= s1.len(),
        n <= s2.len(),
        s1.take(n) == s2.take(n),
    ensures
        s1.skip(p).take(n - p) == s2.skip(p).take(n - p),
        forall|j: int| 0 <= j < n ==> s1[j] == s2[j],
{
    assert forall|j: int| 0 <= j < n implies s1[j] == s2[j] by {
        assert(s1.take(n)[j] == s1[j]);
        assert(s2.take(n)[j] == s2[j]);
    }
    assert(s1.skip(p).take(n - p) =~= s2.skip(p).take(n - p));
}

/// Two sequences that agree before `n` have the same run of class `k` at
/// `p`, where that run ends before `n`, or at `n` in both.
proof fn lemma_run_same(s1: Seq<char>, s2: Seq<char>, p: int, k: CharClass, n: int)
    requires
        0 <= p <= n <= s1.len(),
        n <= s2.len(),
        forall|j: int| 0 <= j < n ==> s1[j] == s2[j],
        p + span(s1.skip(p), k) < n || (p + span(s1.skip(p), k) == n && (n == s2.len()
            || !in_class(k, s2[n]))),
    ensures
        span(s2.skip(p), k) == span(s1.skip(p), k),
{
    let r = span(s1.skip(p), k) as int;
    lemma_span(s1.skip(p), k);
    assert(s1.skip(p).take(r) =~= s2.skip(p).take(r));
    if p + r < n {
        assert(s1.skip(p)[r] == s1[p + r]);
    }
    lemma_span_same(s1.skip(p), s2.skip(p), k, r);
}

/// A number decodes the same wherever the characters it takes are followed
/// by a stop character or the end.
proof fn lemma_number_context(s1: Seq<char>, s2: Seq<char>, v: Value, n: int)
    requires
        number_lit(s1) == Some((v, n)),
        0 < n <= s1.len(),
        n <= s2.len(),
        s1.take(n) == s2.take(n),
        ends_cell(s1, n),
        ends_cell(s2, n),
    ensures
        number_lit(s2) == Some((v, n)),
{
    lemma_take_skip(s1, s2, n, 0);
    assert(s1.skip(0) =~= s1);
    assert(s2.skip(0) =~= s2);
    let start: int = if s1[0] == '-' { 1 } else { 0 };
    let d = span(s1.skip(start), CharClass::Digit) as int;
    lemma_span(s1.skip(start), CharClass::Digit);
    lemma_span(s1, CharClass::Digit);
    if multi_power_lit(s1) is Some {
        let bar = span(s1, CharClass::Digit) as int;
        lemma_run_same(s1, s2, 0, CharClass::Digit, n);
        let m = span(s1.skip(bar + 1), CharClass::Digit) as int;
        lemma_run_same(s1, s2, bar + 1, CharClass::Digit, n);
        assert(s1.take(bar) =~= s2.take(bar));
        assert(s1.subrange(bar + 1, n) =~= s2.subrange(bar + 1, n));
    } else if float_lit(s1) is Some {
        let dot = start + d;
        lemma_run_same(s1, s2, start, CharClass::Digit, n);
        lemma_run_same(s1, s2, dot + 1, CharClass::Digit, n);
        if start == 0 {
            lemma_run_same(s1, s2, 0, CharClass::Digit, n);
        }
        assert(s1.take(n) =~= s2.take(n));
    } else {
        lemma_run_same(s1, s2, start, CharClass::Digit, n);
        if start == 0 {
            lemma_run_same(s1, s2, 0, CharClass::Digit, n);
        }
        assert(s1.subrange(start, n) =~= s2.subrange(start, n));
    }
}

/// A string decodes the same wherever the characters it takes are followed
/// by a stop character or the end.
proof fn lemma_string_context(s1: Seq<char>, s2: Seq<char>, v: Value, n: int)
    requires
        string_lit(s1) == Some((v, n)),
        0 < n <= s1.len(),
        n <= s2.len(),
        s1.take(n) == s2.take(n),
        ends_cell(s1, n),
        ends_cell(s2, n),
    ensures
        string_lit(s2) == Some((v, n)),
{
    lemma_take_skip(s1, s2, n, 0);
    if s1[0] == '|' && s1.len() >= 2 && s1[1] == 'T' {
        let k = span(s1.skip(2), CharClass::IconText) as int;
        lemma_run_same(s1, s2, 2, CharClass::IconText, n);
        assert(s1.subrange(2, 2 + k) =~= s2.subrange(2, 2 + k));
    } else if s1[0] == '"' {
        let k = span(s1.skip(1), CharClass::Wrapped) as int;
        lemma_run_same(s1, s2, 1, CharClass::Wrapped, n);
        assert(s1.subrange(1, 1 + k) =~= s2.subrange(1, 1 + k));
    } else {
        assert(s1.skip(0) =~= s1);
        assert(s2.skip(0) =~= s2);
        lemma_run_same(s1, s2, 0, CharClass::Unwrapped, n);
        assert(s1.take(n) =~= s2.take(n));
    }
}

/// A cell decodes the same wherever the characters it takes are followed by
/// a stop character or the end.
proof fn lemma_cell_context(s1: Seq<char>, s2: Seq<char>, v: Value, n: int)
    requires
        cell_lit(s1) == Some((v, n)),
        0 <= n <= s1.len(),
        n <= s2.len(),
        s1.take(n) == s2.take(n),
        ends_cell(s1, n),
        ends_cell(s2, n),
    ensures
        cell_lit(s2) == Some((v, n)),
        n > 0,
    decreases s1.len(), 1int,
{
    lemma_take_skip(s1, s2, n, 0);
    if s1[0] == '[' || s1[0] == '(' {
        let close = if s1[0] == '[' { ']' } else { ')' };
        let w1 = s1.drop_first();
        let w2 = s2.drop_first();
        let m = list_lit(w1).1;
        assert(w1.take(m + 1) =~= w2.take(m + 1));
        lemma_list_context(w1, w2);
    } else if s1[0] == '0' && s1.len() >= 2 && s1[1] == 'x' {
        lemma_run_same(s1, s2, 2, CharClass::AlphaNumeric, n);
        assert(s1.take(n) =~= s2.take(n));
    } else if starts_number(s1[0]) {
        lemma_span(s1, CharClass::Digit);
        lemma_number_context(s1, s2, v, n);
    } else {
        lemma_string_context(s1, s2, v, n);
    }
}

proof fn lemma_tail_nonneg(s: Seq<char>)
    ensures
        list_tail(s).1 >= 0,
    decreases s.len(),
{
    if s.len() > 0 && s[0] == ',' {
        match cell_lit(s.drop_first()) {
            Some(next) => if 0 <= next.1 < s.len() {
                lemma_tail_nonneg(s.skip(1 + next.1));
            },
            None => {},
        }
    }
}

proof fn lemma_list_nonneg(s: Seq<char>)
    ensures
        list_lit(s).1 >= 0,
{
    match cell_lit(s) {
        Some(first) => if 0 <= first.1 <= s.len() {
            lemma_tail_nonneg(s.skip(first.1));
        },
        None => {},
    }
}

/// A cell takes at least one character, and no more than there are.
proof fn lemma_cell_len(s: Seq<char>, v: Value, n: int)
    requires
        cell_lit(s) == Some((v, n)),
    ensures
        0 < n <= s.len(),
{
    lemma_span(s, CharClass::Digit);
    lemma_span(s, CharClass::Unwrapped);
    if s.len() > 0 {
        lemma_list_nonneg(s.drop_first());
        let start: int = if s[0] == '-' { 1 } else { 0 };
        if s.len() >= start {
            lemma_span(s.skip(start), CharClass::Digit);
            let dot = start + span(s.skip(start), CharClass::Digit);
            if dot + 1 <= s.len() {
                lemma_span(s.skip(dot + 1), CharClass::Digit);
            }
        }
        let bar = span(s, CharClass::Digit) as int;
        if bar + 1 <= s.len() {
            lemma_span(s.skip(bar + 1), CharClass::Digit);
        }
        if s.len() >= 2 {
            lemma_span(s.skip(2), CharClass::AlphaNumeric);
            lemma_span(s.skip(2), CharClass::IconText);
        }
        lemma_span(s.skip(1), CharClass::Wrapped);
    }
}

/// A list that a closing delimiter ends decodes the same whatever follows
/// that delimiter.
proof fn lemma_list_context(w1: Seq<char>, w2: Seq<char>)
    requires
        0 <= list_lit(w1).1 < w1.len(),
        list_lit(w1).1 < w2.len(),
        w1.take(list_lit(w1).1 + 1) == w2.take(list_lit(w1).1 + 1),
        is_closer(w1[list_lit(w1).1]),
    ensures
        list_lit(w2) == list_lit(w1),
    decreases w1.len(), 2int,
{
    let m = list_lit(w1).1;
    lemma_take_skip(w1, w2, m + 1, 0);
    match cell_lit(w1) {
        None => {},
        Some(first) => {
            let k = first.1;
            let t1 = w1.skip(k);
            let t2 = w2.skip(k);
            lemma_cell_len(w1, first.0, k);
            lemma_tail_nonneg(t1);
            assert(k <= m);
            assert(w1.take(k) =~= w2.take(k));
            lemma_cell_context(w1, w2, first.0, k);
            lemma_take_skip(w1, w2, m + 1, k);
            lemma_tail_context(t1, t2);
        },
    }
}

/// A run of `,cell` that a closing delimiter ends decodes the same whatever
/// follows that delimiter.
proof fn lemma_tail_context(t1: Seq<char>, t2: Seq<char>)
    requires
        0 <= list_tail(t1).1 < t1.len(),
        list_tail(t1).1 < t2.len(),
        t1.take(list_tail(t1).1 + 1) == t2.take(list_tail(t1).1 + 1),
        is_closer(t1[list_tail(t1).1]),
    ensures
        list_tail(t2) == list_tail(t1),
    decreases t1.len(), 0int,
{
    let m = list_tail(t1).1;
    lemma_take_skip(t1, t2, m + 1, 0);
    if t1[0] == ',' {
        match cell_lit(t1.drop_first()) {
            None => {},
            Some(next) => {
                let k = next.1;
                lemma_cell_len(t1.drop_first(), next.0, k);
                lemma_tail_nonneg(t1.skip(1 + k));
                assert(t1.drop_first() =~= t1.skip(1));
                assert(t2.drop_first() =~= t2.skip(1));
                lemma_take_skip(t1, t2, m + 1, 1);
                assert(t1.drop_first().take(k) =~= t2.drop_first().take(k));
                lemma_cell_context(t1.drop_first(), t2.drop_first(), next.0, k);
                lemma_take_skip(t1, t2, m + 1, 1 + k);
                lemma_tail_context(t1.skip(1 + k), t2.skip(1 + k));
            },
        }
    }
}

/// Whether `t` is, as a whole, the literal of one cell.
pub open spec fn is_cell_literal(t: Seq<char>) -> bool {
    match cell_lit(t) {
        Some(p) => p.1 == t.len(),
        None => false,
    }
}

/// The value that the literal `t` decodes to on its own.
pub open spec fn value_of(t: Seq<char>) -> Value {
    match cell_lit(t) {
        Some(p) => p.0,
        None => Value::Array(Seq::empty()),
    }
}

/// `,` and each of `items` in turn.
pub open spec fn comma_joined(items: Seq<Seq<char>>) -> Seq<char>
    decreases items.len(),
{
    if items.len() == 0 {
        Seq::empty()
    } else {
        seq![','] + items[0] + comma_joined(items.drop_first())
    }
}

/// The array literal `[i0,i1,...]` of `items`.
pub open spec fn array_literal(items: Seq<Seq<char>>) -> Seq<char> {
    if items.len() == 0 {
        seq!['[', ']']
    } else {
        seq!['['] + items[0] + comma_joined(items.drop_first()) + seq![']']
    }
}

proof fn lemma_joined_tail(items: Seq<Seq<char>>, u: Seq<char>)
    requires
        forall|i: int| 0 <= i < items.len() ==> is_cell_literal(#[trigger] items[i]),
        u.len() == 0 || is_closer(u[0]),
    ensures
        list_tail(comma_joined(items) + u) == (items.map_values(|t: Seq<char>| value_of(t)),
        comma_joined(items).len() as int),
    decreases items.len(),
{
    let s = comma_joined(items) + u;
    if items.len() == 0 {
        assert(s =~= u);
        assert(items.map_values(|t: Seq<char>| value_of(t)) =~= Seq::<Value>::empty());
    } else {
        let a = items[0];
        let rest = items.drop_first();
        assert(is_cell_literal(a));
        let v = value_of(a);
        let w = comma_joined(rest) + u;
        assert(s.drop_first() =~= a + w);
        let after = a + w;
        assert(a.take(a.len() as int) =~= after.take(a.len() as int));
        if w.len() > 0 {
            assert(after[a.len() as int] == w[0]);
        }
        assert(rest.len() > 0 ==> w.len() > 0 && w[0] == ',') by {
            if rest.len() > 0 {
                assert(comma_joined(rest)[0] == ',');
            }
        }
        assert(rest.len() == 0 ==> w =~= u);
        lemma_cell_context(a, after, v, a.len() as int);
        assert(s.skip(1 + a.len() as int) =~= w);
        assert forall|i: int| 0 <= i < rest.len() implies is_cell_literal(#[trigger] rest[i]) by {
            assert(rest[i] == items[i + 1]);
        }
        lemma_joined_tail(rest, u);
        assert(items.map_values(|t: Seq<char>| value_of(t)) =~= seq![v] + rest.map_values(
            |t: Seq<char>| value_of(t),
        ));
    }
}

/// The comma-separated list literal `i0,i1,...` of a non-empty `items`.
pub open spec fn list_literal(items: Seq<Seq<char>>) -> Seq<char> {
    items[0] + comma_joined(items.drop_first())
}

/// A list literal written from whole cell literals, ended by the end of the
/// input or a closing delimiter, decodes to the values that each of those
/// literals decodes to on its own, and takes the whole list literal.
pub proof fn lemma_list_of_literals(items: Seq<Seq<char>>, u: Seq<char>)
    requires
        items.len() > 0,
        forall|i: int| 0 <= i < items.len() ==> is_cell_literal(#[trigger] items[i]),
        u.len() == 0 || is_closer(u[0]),
    ensures
        cell_lit(list_literal(items) + u) is Some,
        list_lit(list_literal(items) + u) == (items.map_values(|t: Seq<char>| value_of(t)),
        list_literal(items).len() as int),
{
    let a = items[0];
    let rest = items.drop_first();
    let v = value_of(a);
    let w = list_literal(items) + u;
    let tail = comma_joined(rest) + u;
    assert(is_cell_literal(a));
    assert(w =~= a + tail);
    assert(rest.len() > 0 ==> tail.len() > 0 && tail[0] == ',') by {
        if rest.len() > 0 {
            assert(comma_joined(rest)[0] == ',');
        }
    }
    assert(rest.len() == 0 ==> tail =~= u);
    assert(a.take(a.len() as int) =~= w.take(a.len() as int));
    if tail.len() > 0 {
        assert(w[a.len() as int] == tail[0]);
    }
    lemma_cell_context(a, w, v, a.len() as int);
    assert(w.skip(a.len() as int) =~= tail);
    assert forall|i: int| 0 <= i < rest.len() implies is_cell_literal(#[trigger] rest[i]) by {
        assert(rest[i] == items[i + 1]);
    }
    lemma_joined_tail(rest, u);
    assert(items.map_values(|t: Seq<char>| value_of(t)) =~= seq![v] + rest.map_values(
        |t: Seq<char>| value_of(t),
    ));
}

/// An array literal written from whole cell literals decodes, as a whole, to
/// the array of the values that each of those literals decodes to on its own.
pub proof fn lemma_array_of_literals(items: Seq<Seq<char>>)
    requires
        forall|i: int| 0 <= i < items.len() ==> is_cell_literal(#[trigger] items[i]),
    ensures
        cell_lit(array_literal(items)) == Some(
            (
                Value::Array(items.map_values(|t: Seq<char>| value_of(t))),
                array_literal(items).len() as int,
            ),
        ),
{
    let s = array_literal(items);
    let w = s.drop_first();
    if items.len() == 0 {
        assert(w =~= seq![']']);
        assert(span(w, CharClass::Unwrapped) == 0);
        assert(cell_lit(w) is None);
        assert(items.map_values(|t: Seq<char>| value_of(t)) =~= Seq::<Value>::empty());
    } else {
        let a = items[0];
        let rest = items.drop_first();
        let u = seq![']'];
        let v = value_of(a);
        assert(w =~= a + (comma_joined(rest) + u));
        let tail = comma_joined(rest) + u;
        assert(rest.len() > 0 ==> tail[0] == ',') by {
            if rest.len() > 0 {
                assert(comma_joined(rest)[0] == ',');
            }
        }
        assert(rest.len() == 0 ==> tail =~= u);
        assert(a.take(a.len() as int) =~= w.take(a.len() as int));
        assert(w[a.len() as int] == tail[0]);
        lemma_cell_context(a, w, v, a.len() as int);
        assert(w.skip(a.len() as int) =~= tail);
        assert forall|i: int| 0 <= i < rest.len() implies is_cell_literal(#[trigger] rest[i]) by {
            assert(rest[i] == items[i + 1]);
        }
        lemma_joined_tail(rest, u);
        assert(items.map_values(|t: Seq<char>| value_of(t)) =~= seq![v] + rest.map_values(
            |t: Seq<char>| value_of(t),
        ));
        assert(s[1 + a.len() as int + comma_joined(rest).len() as int] == ']');
    }
}

} // verus!
