//! Framing of a log line into its timestamp and event body, and the driver
//! that decodes a sequence of lines one by one.
use vstd::prelude::*;

use crate::cell::LogError;
use crate::event::{LogRow, parse_log_csv, row_decoded};
use crate::text::{CharClass, char_at, chars_of, scan, span, string_of};

verus! {

/// The timestamp of an event, its six parts kept as the digit runs written.
#[derive(Debug, PartialEq)]
pub struct LogEventDateTime {
    pub month: String,
    pub day: String,
    pub hour: String,
    pub minute: String,
    pub second: String,
    pub ms: String,
}

/// The end of the digit run that starts at `p`.
pub open spec fn digits_end(s: Seq<char>, p: int) -> int {
    p + span(s.skip(p), CharClass::Digit)
}

/// The ends of the six digit runs of `month/day hour:minute:second.ms`.
pub open spec fn stamp_ends(s: Seq<char>) -> Seq<int> {
    let e0 = digits_end(s, 0);
    let e1 = digits_end(s, e0 + 1);
    let e2 = digits_end(s, e1 + 1);
    let e3 = digits_end(s, e2 + 1);
    let e4 = digits_end(s, e3 + 1);
    let e5 = digits_end(s, e4 + 1);
    seq![e0, e1, e2, e3, e4, e5]
}

/// The separator that follows digit run `i` of a timestamp.
pub open spec fn stamp_separator(i: int) -> char {
    if i == 0 {
        '/'
    } else if i == 1 {
        ' '
    } else if i == 4 {
        '.'
    } else {
        ':'
    }
}

/// The start of digit run `i` of a timestamp.
pub open spec fn stamp_start(s: Seq<char>, i: int) -> int {
    if i == 0 {
        0
    } else {
        stamp_ends(s)[i - 1] + 1
    }
}

/// Whether `s` starts with a timestamp: six non-empty digit runs, the first
/// five each followed by its separator.
pub open spec fn stamp_ok(s: Seq<char>) -> bool {
    &&& forall|i: int| 0 <= i < 6 ==> stamp_start(s, i) < #[trigger] stamp_ends(s)[i]
    &&& forall|i: int|
        0 <= i < 5 ==> #[trigger] stamp_ends(s)[i] < s.len() && s[stamp_ends(s)[i]]
            == stamp_separator(i)
}

/// Whether `dt` holds the six digit runs of the timestamp at the start of `s`.
pub open spec fn stamp_fields(dt: LogEventDateTime, s: Seq<char>) -> bool {
    &&& dt.month@ == s.subrange(stamp_start(s, 0), stamp_ends(s)[0])
    &&& dt.day@ == s.subrange(stamp_start(s, 1), stamp_ends(s)[1])
    &&& dt.hour@ == s.subrange(stamp_start(s, 2), stamp_ends(s)[2])
    &&& dt.minute@ == s.subrange(stamp_start(s, 3), stamp_ends(s)[3])
    &&& dt.second@ == s.subrange(stamp_start(s, 4), stamp_ends(s)[4])
    &&& dt.ms@ == s.subrange(stamp_start(s, 5), stamp_ends(s)[5])
}

/// Whether `r` is what decoding a timestamp at the start of `s` gives.
pub open spec fn date_time_decoded(r: Result<(String, LogEventDateTime), LogError>, s: Seq<char>) -> bool {
    if stamp_ok(s) {
        match r {
            Ok(ok) => stamp_fields(ok.1, s) && ok.0@ == s.skip(stamp_ends(s)[5]),
            Err(_) => false,
        }
    } else {
        r == Err::<(String, LogEventDateTime), LogError>(LogError::Framing)
    }
}

/// Whether `s` is a timestamp, two spaces and a body.
pub open spec fn framed(s: Seq<char>) -> bool {
    stamp_ok(s) && stamp_ends(s)[5] + 1 < s.len() && s[stamp_ends(s)[5]] == ' ' && s[stamp_ends(
        s,
    )[5] + 1] == ' '
}

/// The event body of a framed line.
pub open spec fn line_body(s: Seq<char>) -> Seq<char> {
    s.skip(stamp_ends(s)[5] + 2)
}

/// Whether `r` is what decoding the line `s` gives: a framing error, or the
/// timestamp together with what dispatching the body gives.
pub open spec fn line_decoded(r: Result<(String, LogEventDateTime, LogRow), LogError>, s: Seq<char>) -> bool {
    if framed(s) {
        match r {
            Ok(ok) => stamp_fields(ok.1, s) && row_decoded(Ok((ok.0, ok.2)), line_body(s)),
            Err(e) => row_decoded(Err(e), line_body(s)),
        }
    } else {
        r == Err::<(String, LogEventDateTime, LogRow), LogError>(LogError::Framing)
    }
}

/// The end of the non-empty digit run at `p`, if the separator `sep`
/// follows it.
fn digits_then(s: &Vec<char>, p: usize, sep: char) -> (r: Option<usize>)
    requires
        p <= s.len(),
    ensures
        match r {
            Some(e) => e == digits_end(s@, p as int) && p < e < s.len() && s@[e as int] == sep,
            None => !(p < digits_end(s@, p as int) < s.len() && s@[digits_end(s@, p as int)]
                == sep),
        },
{
    let e = scan(s, p, CharClass::Digit);
    if p < e && char_at(s, e, sep) {
        Some(e)
    } else {
        None
    }
}

/// The timestamp at the start of `s` and where it ends.
fn date_time_at(s: &Vec<char>) -> (r: Option<(LogEventDateTime, usize)>)
    ensures
        match r {
            Some(p) => stamp_ok(s@) && stamp_fields(p.0, s@) && p.1 == stamp_ends(s@)[5] && p.1
                <= s.len(),
            None => !stamp_ok(s@),
        },
{
    let ghost ends = stamp_ends(s@);
    let e0 = match digits_then(s, 0, '/') {
        Some(e) => e,
        None => {
            assert(!(stamp_start(s@, 0) < ends[0]) || !(ends[0] < s.len() && s@[ends[0]]
                == stamp_separator(0)));
            return None;
        },
    };
    let e1 = match digits_then(s, e0 + 1, ' ') {
        Some(e) => e,
        None => {
            assert(!(stamp_start(s@, 1) < ends[1]) || !(ends[1] < s.len() && s@[ends[1]]
                == stamp_separator(1)));
            return None;
        },
    };
    let e2 = match digits_then(s, e1 + 1, ':') {
        Some(e) => e,
        None => {
            assert(!(stamp_start(s@, 2) < ends[2]) || !(ends[2] < s.len() && s@[ends[2]]
                == stamp_separator(2)));
            return None;
        },
    };
    let e3 = match digits_then(s, e2 + 1, ':') {
        Some(e) => e,
        None => {
            assert(!(stamp_start(s@, 3) < ends[3]) || !(ends[3] < s.len() && s@[ends[3]]
                == stamp_separator(3)));
            return None;
        },
    };
    let e4 = match digits_then(s, e3 + 1, '.') {
        Some(e) => e,
        None => {
            assert(!(stamp_start(s@, 4) < ends[4]) || !(ends[4] < s.len() && s@[ends[4]]
                == stamp_separator(4)));
            return None;
        },
    };
    let e5 = scan(s, e4 + 1, CharClass::Digit);
    if e5 == e4 + 1 {
        assert(!(stamp_start(s@, 5) < ends[5]));
        return None;
    }
    assert(stamp_ok(s@)) by {
        assert forall|i: int| 0 <= i < 6 implies stamp_start(s@, i) < #[trigger] ends[i] by {}
        assert forall|i: int| 0 <= i < 5 implies #[trigger] ends[i] < s.len() && s@[ends[i]]
            == stamp_separator(i) by {}
    }
    let dt = LogEventDateTime {
        month: string_of(s, 0, e0),
        day: string_of(s, e0 + 1, e1),
        hour: string_of(s, e1 + 1, e2),
        minute: string_of(s, e2 + 1, e3),
        second: string_of(s, e3 + 1, e4),
        ms: string_of(s, e4 + 1, e5),
    };
    Some((dt, e5))
}

/// Decodes `month/day hour:minute:second.ms` at the start of `input`.
pub fn parse_date_time(input: &str) -> (r: Result<(String, LogEventDateTime), LogError>)
    ensures
        date_time_decoded(r, input@),
{
    let s = chars_of(input);
    match date_time_at(&s) {
        Some((dt, end)) => Ok((string_of(&s, end, s.len()), dt)),
        None => Err(LogError::Framing),
    }
}

/// Decodes one log line: its timestamp, two spaces, and an event body.
/// Returns the input that the event left over, the timestamp and the event.
pub fn parse_line(input: &str) -> (r: Result<(String, LogEventDateTime, LogRow), LogError>)
    ensures
        line_decoded(r, input@),
{
    let s = chars_of(input);
    let (dt, end) = match date_time_at(&s) {
        Some(p) => p,
        None => return Err(LogError::Framing),
    };
    if !(char_at(&s, end, ' ') && char_at(&s, end + 1, ' ')) {
        return Err(LogError::Framing);
    }
    let body = string_of(&s, end + 2, s.len());
    match parse_log_csv(body.as_str()) {
        Ok((rest, row)) => Ok((rest, dt, row)),
        Err(e) => Err(e),
    }
}

/// What the driver reports for one line.
#[derive(Debug, PartialEq)]
pub enum LineOutcome {
    /// The line decoded, and its event took the whole body (or its event
    /// type has no record here).
    Parsed(LogEventDateTime, LogRow),
    /// The line decoded, but its event left input over: a warning, not a
    /// failure.
    Trailing(LogEventDateTime, LogRow, String),
    /// The line could not be decoded; holds the line and the cause.
    Failed(String, LogError),
}

/// Whether `o` is what the driver reports for the line `s`.
pub open spec fn outcome_of(o: LineOutcome, s: Seq<char>) -> bool {
    match o {
        LineOutcome::Failed(line, e) => line@ == s && line_decoded(Err(e), s),
        LineOutcome::Trailing(dt, row, rest) => line_decoded(Ok((rest, dt, row)), s) && rest@.len()
            > 0 && !(row is NotSupported),
        LineOutcome::Parsed(dt, row) => exists|rest: String|
            line_decoded(Ok((rest, dt, row)), s) && (rest@.len() == 0 || row is NotSupported),
    }
}

/// Decodes one line and classifies the result for the driver.
pub fn classify_line(line: &str) -> (r: LineOutcome)
    ensures
        outcome_of(r, line@),
{
    match parse_line(line) {
        Ok((rest, dt, row)) => {
            let empty = rest.as_str().is_empty();
            let supported = !matches!(row, LogRow::NotSupported);
            if !empty && supported {
                LineOutcome::Trailing(dt, row, rest)
            } else {
                let ghost rest_ghost = rest;
                assert(line_decoded(Ok((rest_ghost, dt, row)), line@));
                LineOutcome::Parsed(dt, row)
            }
        },
        Err(e) => {
            let s = chars_of(line);
            let text = string_of(&s, 0, s.len());
            assert(s@.subrange(0, s.len() as int) =~= s@);
            LineOutcome::Failed(text, e)
        },
    }
}

/// Decodes the lines of a combat log one by one. Each line is decoded on its
/// own: no state carries from one line to the next.
pub struct Parser {}

impl Parser {
    pub fn new() -> Self {
        Parser {  }
    }

    /// Decodes each line; the outcome at index `i` is that of line `i`.
    pub fn parse_lines(&self, lines: &Vec<String>) -> (r: Vec<LineOutcome>)
        ensures
            r.len() == lines.len(),
            forall|i: int| 0 <= i < lines.len() ==> outcome_of(#[trigger] r@[i], lines@[i]@),
    {
        let mut out: Vec<LineOutcome> = Vec::new();
        let mut i: usize = 0;
        while i < lines.len()
            invariant
                i <= lines.len(),
                out.len() == i,
                forall|j: int| 0 <= j < i ==> outcome_of(#[trigger] out@[j], lines@[j]@),
            decreases lines.len() - i,
        {
            let o = classify_line(lines[i].as_str());
            out.push(o);
            i = i + 1;
        }
        out
    }
}

} // verus!
