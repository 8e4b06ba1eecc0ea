//! The rolling-log logic: one line per run, `<date> <formatted-assignment>`
//! with the date as an ISO `YYYY-MM-DD` token, and a prune pass that keeps
//! only lines dated within the retention window. A line whose leading token
//! is not a date is reported rather than aborting the pass; blank lines are
//! dropped silently. Reading and writing the log file itself is the caller's
//! concern.

use vstd::prelude::*;
use crate::text::push_char;

verus! {

/// How many days a log line is retained.
pub const RETENTION_DAYS: u64 = 30;

/// Whether `c` is a decimal digit.
pub open spec fn is_digit(c: char) -> bool {
    48 <= c as int <= 57
}

/// The numeric value of a decimal digit.
pub open spec fn digit_val(c: char) -> int {
    c as int - 48
}

/// The character for a decimal digit value.
pub open spec fn digit_char(v: int) -> char {
    (48 + v) as char
}

/// Whether the ten characters of `s` form a date token `YYYY-MM-DD` with a
/// plausible month and day. (Months have 1 to 12, days 1 to 31; the token
/// grammar does not model month lengths or leap years.)
pub open spec fn is_date_token(s: Seq<char>) -> bool {
    &&& s.len() == 10
    &&& is_digit(s[0])
    &&& is_digit(s[1])
    &&& is_digit(s[2])
    &&& is_digit(s[3])
    &&& s[4] == '-'
    &&& is_digit(s[5])
    &&& is_digit(s[6])
    &&& s[7] == '-'
    &&& is_digit(s[8])
    &&& is_digit(s[9])
    &&& 1 <= digit_val(s[5]) * 10 + digit_val(s[6]) <= 12
    &&& 1 <= digit_val(s[8]) * 10 + digit_val(s[9]) <= 31
}

/// The packed value of a date token: `y * 10000 + m * 100 + d`, which orders
/// tokens chronologically.
pub open spec fn date_token_val(s: Seq<char>) -> int {
    (digit_val(s[0]) * 1000 + digit_val(s[1]) * 100 + digit_val(s[2]) * 10 + digit_val(s[3]))
        * 10000 + (digit_val(s[5]) * 10 + digit_val(s[6])) * 100 + (digit_val(s[8]) * 10
        + digit_val(s[9]))
}

/// The date a log line carries: its first whitespace-delimited token must be
/// a ten-character date token standing alone or followed by a space.
pub open spec fn spec_line_date(line: Seq<char>) -> Option<u32> {
    if line.len() >= 10 && is_date_token(line.take(10)) && (line.len() == 10 || line[10] == ' ') {
        Option::Some(date_token_val(line.take(10)) as u32)
    } else {
        Option::None
    }
}

fn digit_of(c: char) -> (r: Option<u32>)
    ensures
        (r is Some) == is_digit(c),
        r is Some ==> r->0 == digit_val(c),
{
    let v = c as u32;
    proof {
        assert((v as int) == (c as int));
    }
    if 48 <= v && v <= 57 {
        Some(v - 48)
    } else {
        None
    }
}

/// Reads the leading date token of a log line; `None` when the line does not
/// begin with a date token.
pub fn parse_line_date(line: &str) -> (r: Option<u32>)
    ensures
        r == spec_line_date(line@),
{
    let len = line.unicode_len();
    if len < 10 {
        return None;
    }
    if len > 10 && line.get_char(10) != ' ' {
        return None;
    }
    let ghost tok = line@.take(10);
    proof {
        assert forall|k: int| 0 <= k < 10 implies tok[k] == line@[k] by {}
    }
    if line.get_char(4) != '-' || line.get_char(7) != '-' {
        return None;
    }
    let d0 = digit_of(line.get_char(0));
    let d1 = digit_of(line.get_char(1));
    let d2 = digit_of(line.get_char(2));
    let d3 = digit_of(line.get_char(3));
    let d5 = digit_of(line.get_char(5));
    let d6 = digit_of(line.get_char(6));
    let d8 = digit_of(line.get_char(8));
    let d9 = digit_of(line.get_char(9));
    match (d0, d1, d2, d3, d5, d6, d8, d9) {
        (
            Some(v0),
            Some(v1),
            Some(v2),
            Some(v3),
            Some(v5),
            Some(v6),
            Some(v8),
            Some(v9),
        ) => {
            let month = v5 * 10 + v6;
            let day = v8 * 10 + v9;
            if month < 1 || month > 12 || day < 1 || day > 31 {
                return None;
            }
            let year = v0 * 1000 + v1 * 100 + v2 * 10 + v3;
            Some(year * 10000 + month * 100 + day)
        },
        _ => None,
    }
}

/// One prune step over the lines in order: blank lines are dropped, dated
/// lines are kept iff their date is at or after the cutoff, and undated
/// lines are reported as malformed.
pub open spec fn spec_prune(lines: Seq<Seq<char>>, cutoff: u32) -> (Seq<Seq<char>>, Seq<
    Seq<char>,
>)
    decreases lines.len(),
{
    if lines.len() == 0 {
        (Seq::empty(), Seq::empty())
    } else {
        let rest = spec_prune(lines.drop_last(), cutoff);
        let line = lines.last();
        if line.len() == 0 {
            rest
        } else {
            match spec_line_date(line) {
                Option::Some(dv) => if dv >= cutoff {
                    (rest.0.push(line), rest.1)
                } else {
                    rest
                },
                Option::None => (rest.0, rest.1.push(line)),
            }
        }
    }
}

/// The views of a list of lines.
pub open spec fn lines_view(v: Seq<String>) -> Seq<Seq<char>> {
    v.map_values(|s: String| s@)
}

/// Splits `lines` into the lines retained by the cutoff and the malformed
/// ones, in order: a line is retained iff its leading token is a date at or
/// after `cutoff` (packed as `y * 10000 + m * 100 + d`); a non-blank line
/// without a date token is reported as malformed; blank lines are dropped.
pub fn prune_log_lines(lines: &Vec<String>, cutoff: u32) -> (r: (Vec<String>, Vec<String>))
    ensures
        lines_view(r.0@) == spec_prune(lines_view(lines@), cutoff).0,
        lines_view(r.1@) == spec_prune(lines_view(lines@), cutoff).1,
{
    let ghost lv = lines_view(lines@);
    let mut kept: Vec<String> = Vec::new();
    let mut malformed: Vec<String> = Vec::new();
    let mut i: usize = 0;
    proof {
        assert(lv.take(0) =~= Seq::<Seq<char>>::empty());
        assert(lines_view(kept@) =~= Seq::<Seq<char>>::empty());
        assert(lines_view(malformed@) =~= Seq::<Seq<char>>::empty());
    }
    while i < lines.len()
        invariant
            i <= lines@.len(),
            lv == lines_view(lines@),
            lines_view(kept@) == spec_prune(lv.take(i as int), cutoff).0,
            lines_view(malformed@) == spec_prune(lv.take(i as int), cutoff).1,
        decreases lines@.len() - i,
    {
        proof {
            assert(lv.take(i + 1).drop_last() =~= lv.take(i as int));
            assert(lv.take(i + 1).last() == lv[i as int]);
            assert(lv[i as int] == lines@[i as int]@);
        }
        let line = &lines[i];
        if !line.as_str().is_empty() {
            let parsed = parse_line_date(line.as_str());
            match parsed {
                Some(dv) => {
                    if dv >= cutoff {
                        let ghost ks = kept@;
                        kept.push(line.clone());
                        proof {
                            assert(lines_view(kept@) =~= lines_view(ks).push(lv[i as int]));
                        }
                    }
                },
                None => {
                    let ghost ms = malformed@;
                    malformed.push(line.clone());
                    proof {
                        assert(lines_view(malformed@) =~= lines_view(ms).push(lv[i as int]));
                    }
                },
            }
        }
        i = i + 1;
    }
    proof {
        assert(lv.take(lines@.len() as int) =~= lv);
    }
    (kept, malformed)
}

/// The calendar date `days` days before the given year, month and day, as
/// chrono computes it; `None` when the inputs are not a valid calendar date
/// or the result is out of chrono's range.
pub uninterp spec fn date_back(y: u32, m: u32, d: u32, days: u64) -> Option<(i32, u32, u32)>;

/// Relies on chrono's `NaiveDate`: `from_ymd_opt` builds a calendar date
/// (`None` for an invalid one), `checked_sub_days` steps it back by the
/// given number of days (`None` when out of range), and the `Datelike`
/// accessors read the result's fields. The result depends on the arguments
/// alone.
#[verifier::external_body]
fn chrono_date_back(y: u32, m: u32, d: u32, days: u64) -> (r: Option<(i32, u32, u32)>)
    requires
        y <= 9999,
    ensures
        r == date_back(y, m, d, days),
{
    match chrono::NaiveDate::from_ymd_opt(y as i32, m, d) {
        Some(date) => match date.checked_sub_days(chrono::Days::new(days)) {
            Some(back) => Some((
                chrono::Datelike::year(&back),
                chrono::Datelike::month(&back),
                chrono::Datelike::day(&back),
            )),
            None => None,
        },
        None => None,
    }
}

/// The packed cutoff date `days` days before the given date: `None` when the
/// inputs do not form a valid calendar date or the stepped-back date cannot
/// be written as a date token.
pub open spec fn spec_prune_cutoff(y: u32, m: u32, d: u32, days: u64) -> Option<u32> {
    match date_back(y, m, d, days) {
        Option::Some(t) => if 1 <= t.0 <= 9999 && 1 <= t.1 <= 12 && 1 <= t.2 <= 31 {
            Option::Some(((t.0 * 10000 + t.1 * 100 + t.2) as u32))
        } else {
            Option::None
        },
        Option::None => Option::None,
    }
}

/// The packed date below which log lines are pruned: `days` days before the
/// given date.
pub fn prune_cutoff(y: u32, m: u32, d: u32, days: u64) -> (r: Option<u32>)
    requires
        y <= 9999,
    ensures
        r == spec_prune_cutoff(y, m, d, days),
{
    match chrono_date_back(y, m, d, days) {
        Some(t) => {
            let (yy, mm, dd) = t;
            if 1 <= yy && yy <= 9999 && 1 <= mm && mm <= 12 && 1 <= dd && dd <= 31 {
                Some((yy as u32) * 10000 + mm * 100 + dd)
            } else {
                None
            }
        },
        None => None,
    }
}

/// The date token for a year, month and day, zero-padded to `YYYY-MM-DD`.
pub open spec fn spec_date_token(y: int, m: int, d: int) -> Seq<char> {
    seq![
        digit_char(y / 1000 % 10),
        digit_char(y / 100 % 10),
        digit_char(y / 10 % 10),
        digit_char(y % 10),
        '-',
        digit_char(m / 10 % 10),
        digit_char(m % 10),
        '-',
        digit_char(d / 10 % 10),
        digit_char(d % 10),
    ]
}

fn push_digit(out: &mut String, v: u32)
    requires
        v <= 9,
    ensures
        final(out)@ == old(out)@.push(digit_char(v as int)),
{
    let c = ((48 + v) as u8) as char;
    proof {
        assert(c == digit_char(v as int));
    }
    push_char(out, c);
}

/// Writes a date as its zero-padded `YYYY-MM-DD` token.
pub fn format_date(y: u32, m: u32, d: u32) -> (r: String)
    requires
        y <= 9999,
        m <= 99,
        d <= 99,
    ensures
        r@ == spec_date_token(y as int, m as int, d as int),
{
    let mut out = String::new();
    push_digit(&mut out, y / 1000 % 10);
    push_digit(&mut out, y / 100 % 10);
    push_digit(&mut out, y / 10 % 10);
    push_digit(&mut out, y % 10);
    push_char(&mut out, '-');
    push_digit(&mut out, m / 10 % 10);
    push_digit(&mut out, m % 10);
    push_char(&mut out, '-');
    push_digit(&mut out, d / 10 % 10);
    push_digit(&mut out, d % 10);
    proof {
        assert(out@ =~= spec_date_token(y as int, m as int, d as int));
    }
    out
}

/// The outcome of preparing one log append: the lines that survive the
/// retention window, the malformed lines that were set aside, and the new
/// line to write after the retained ones.
pub struct LogUpdate {
    pub retained: Vec<String>,
    pub malformed: Vec<String>,
    pub new_line: String,
}

/// Prepares appending today's assignment to the rolling log: prunes
/// `existing` against the cutoff 30 days before today and renders the new
/// line `<date> <assignment>`. Returns `None` only when today's date is not
/// a calendar date chrono can step back from.
pub fn build_log_update(existing: &Vec<String>, y: u32, m: u32, d: u32, assignment: &str) -> (r:
    Option<LogUpdate>)
    requires
        y <= 9999,
        m <= 99,
        d <= 99,
    ensures
        (r is Some) == (spec_prune_cutoff(y, m, d, RETENTION_DAYS) is Some),
        r is Some ==> ({
            let cutoff = spec_prune_cutoff(y, m, d, RETENTION_DAYS)->0;
            let pruned = spec_prune(lines_view(existing@), cutoff);
            &&& lines_view(r->0.retained@) == pruned.0
            &&& lines_view(r->0.malformed@) == pruned.1
            &&& r->0.new_line@ == spec_date_token(y as int, m as int, d as int) + seq![' ']
                + assignment@
        }),
{
    let cutoff = match prune_cutoff(y, m, d, RETENTION_DAYS) {
        Some(c) => c,
        None => {
            return None;
        },
    };
    let pruned = prune_log_lines(existing, cutoff);
    let (retained, malformed) = pruned;
    let mut new_line = format_date(y, m, d);
    push_char(&mut new_line, ' ');
    new_line.append(assignment);
    proof {
        assert(new_line@ =~= spec_date_token(y as int, m as int, d as int) + seq![' ']
            + assignment@);
    }
    Some(LogUpdate { retained, malformed, new_line })
}

} // verus!
