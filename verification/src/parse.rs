//! Parsing the inbound message and the table cells: the fixed
//! schedule-announcement pattern, "HH:MM" times, and shift derivation from
//! grid rows.

use vstd::prelude::*;
use crate::date::{Date, TimeOfDay, date_valid, days_in_month, days_in_month_exec};
use crate::models::{Planning, Shift, WhatsappMessage};
use crate::text::{is_digit, digit_val, is_blank, blank_exec};

verus! {

/// A time of day from hour and minute values, when both are in range.
pub open spec fn mk_time(h: int, m: int) -> Option<TimeOfDay> {
    if 0 <= h < 24 && 0 <= m < 60 {
        Some(TimeOfDay { hour: h as u8, minute: m as u8 })
    } else {
        None
    }
}

/// Strict "H:M" parsing: one or two digits for each part, one colon,
/// nothing else, and both values in range.
pub open spec fn spec_parse_time(s: Seq<char>) -> Option<TimeOfDay> {
    if s.len() == 3 && is_digit(s[0]) && s[1] == ':' && is_digit(s[2]) {
        mk_time(digit_val(s[0]), digit_val(s[2]))
    } else if s.len() == 4 && is_digit(s[0]) && s[1] == ':' && is_digit(s[2]) && is_digit(s[3]) {
        mk_time(digit_val(s[0]), 10 * digit_val(s[2]) + digit_val(s[3]))
    } else if s.len() == 4 && is_digit(s[0]) && is_digit(s[1]) && s[2] == ':' && is_digit(s[3]) {
        mk_time(10 * digit_val(s[0]) + digit_val(s[1]), digit_val(s[3]))
    } else if s.len() == 5 && is_digit(s[0]) && is_digit(s[1]) && s[2] == ':' && is_digit(s[3])
        && is_digit(s[4]) {
        mk_time(10 * digit_val(s[0]) + digit_val(s[1]), 10 * digit_val(s[3]) + digit_val(s[4]))
    } else {
        None
    }
}

/// The digit value of `c`, when `c` is an ASCII digit.
fn digit_exec(c: char) -> (r: Option<u8>)
    ensures
        r is Some <==> is_digit(c),
        r is Some ==> r->0 == digit_val(c),
{
    let v = c as u32;
    if 48 <= v && v <= 57 {
        Some((v - 48) as u8)
    } else {
        None
    }
}

fn mk_time_exec(h: u8, m: u8) -> (r: Option<TimeOfDay>)
    ensures
        r == mk_time(h as int, m as int),
{
    if h < 24 && m < 60 {
        Some(TimeOfDay { hour: h, minute: m })
    } else {
        None
    }
}

/// Parse a wall-clock time written as "H:M"/"HH:MM".
pub fn parse_time(s: &str) -> (r: Option<TimeOfDay>)
    ensures
        r == spec_parse_time(s@),
{
    let n = s.unicode_len();
    if n == 3 {
        let c0 = s.get_char(0);
        let c1 = s.get_char(1);
        let c2 = s.get_char(2);
        if c1 != ':' {
            return None;
        }
        match (digit_exec(c0), digit_exec(c2)) {
            (Some(h), Some(m)) => mk_time_exec(h, m),
            _ => None,
        }
    } else if n == 4 {
        let c0 = s.get_char(0);
        let c1 = s.get_char(1);
        let c2 = s.get_char(2);
        let c3 = s.get_char(3);
        if c1 == ':' {
            match (digit_exec(c0), digit_exec(c2), digit_exec(c3)) {
                (Some(h), Some(m1), Some(m0)) => mk_time_exec(h, 10 * m1 + m0),
                _ => None,
            }
        } else if c2 == ':' {
            match (digit_exec(c0), digit_exec(c1), digit_exec(c3)) {
                (Some(h1), Some(h0), Some(m)) => mk_time_exec(10 * h1 + h0, m),
                _ => None,
            }
        } else {
            None
        }
    } else if n == 5 {
        let c0 = s.get_char(0);
        let c1 = s.get_char(1);
        let c2 = s.get_char(2);
        let c3 = s.get_char(3);
        let c4 = s.get_char(4);
        if c2 != ':' {
            return None;
        }
        match (digit_exec(c0), digit_exec(c1), digit_exec(c3), digit_exec(c4)) {
            (Some(h1), Some(h0), Some(m1), Some(m0)) => mk_time_exec(10 * h1 + h0, 10 * m1 + m0),
            _ => None,
        }
    } else {
        None
    }
}

/// One of the seven two-letter weekday codes stands at `i`.
pub open spec fn day_code_at(s: Seq<char>, i: int) -> bool {
    ||| (s[i] == 'M' && s[i + 1] == 'A')
    ||| (s[i] == 'D' && s[i + 1] == 'I')
    ||| (s[i] == 'W' && s[i + 1] == 'O')
    ||| (s[i] == 'D' && s[i + 1] == 'O')
    ||| (s[i] == 'V' && s[i + 1] == 'R')
    ||| (s[i] == 'Z' && s[i + 1] == 'A')
    ||| (s[i] == 'Z' && s[i + 1] == 'O')
}

/// The fixed announcement pattern:
/// `Planning <day-code><category-code> <DD-MM-YYYY>`, where the day value is
/// 01..=31, the month value 01..=12 and the year four digits. This is the
/// syntactic gate; whether the date exists on the calendar is checked later.
pub open spec fn spec_body_matches(s: Seq<char>) -> bool {
    &&& s.len() == 24
    &&& s[0] == 'P' && s[1] == 'l' && s[2] == 'a' && s[3] == 'n' && s[4] == 'n' && s[5] == 'i'
        && s[6] == 'n' && s[7] == 'g' && s[8] == ' '
    &&& day_code_at(s, 9)
    &&& s[11] == 'P' && (s[12] == 'A' || s[12] == 'O')
    &&& s[13] == ' '
    &&& is_digit(s[14]) && is_digit(s[15])
    &&& 1 <= 10 * digit_val(s[14]) + digit_val(s[15]) <= 31
    &&& s[16] == '-'
    &&& is_digit(s[17]) && is_digit(s[18])
    &&& 1 <= 10 * digit_val(s[17]) + digit_val(s[18]) <= 12
    &&& s[19] == '-'
    &&& is_digit(s[20]) && is_digit(s[21]) && is_digit(s[22]) && is_digit(s[23])
}

pub open spec fn body_day(s: Seq<char>) -> int {
    10 * digit_val(s[14]) + digit_val(s[15])
}

pub open spec fn body_month(s: Seq<char>) -> int {
    10 * digit_val(s[17]) + digit_val(s[18])
}

pub open spec fn body_year(s: Seq<char>) -> int {
    1000 * digit_val(s[20]) + 100 * digit_val(s[21]) + 10 * digit_val(s[22]) + digit_val(s[23])
}

/// The (date, category) pair announced by a matching body, provided the
/// date exists on the calendar; `None` otherwise.
pub open spec fn spec_parse_metadata(s: Seq<char>) -> Option<(Date, Planning)> {
    if spec_body_matches(s) {
        let d = Date { year: body_year(s) as u32, month: body_month(s) as u8, day: body_day(s) as u8 };
        if date_valid(d) {
            Some((d, if s[12] == 'O' { Planning::PO } else { Planning::PA }))
        } else {
            None
        }
    } else {
        None
    }
}

/// Syntactic test of the announcement pattern.
pub fn body_matches(s: &str) -> (r: bool)
    ensures
        r == spec_body_matches(s@),
{
    let n = s.unicode_len();
    if n != 24 {
        return false;
    }
    let ok_prefix = s.get_char(0) == 'P' && s.get_char(1) == 'l' && s.get_char(2) == 'a'
        && s.get_char(3) == 'n' && s.get_char(4) == 'n' && s.get_char(5) == 'i' && s.get_char(6)
        == 'n' && s.get_char(7) == 'g' && s.get_char(8) == ' ';
    if !ok_prefix {
        return false;
    }
    let d0 = s.get_char(9);
    let d1 = s.get_char(10);
    let day_ok = (d0 == 'M' && d1 == 'A') || (d0 == 'D' && d1 == 'I') || (d0 == 'W' && d1 == 'O')
        || (d0 == 'D' && d1 == 'O') || (d0 == 'V' && d1 == 'R') || (d0 == 'Z' && d1 == 'A') || (d0
        == 'Z' && d1 == 'O');
    if !day_ok {
        return false;
    }
    if !(s.get_char(11) == 'P' && (s.get_char(12) == 'A' || s.get_char(12) == 'O')) {
        return false;
    }
    if s.get_char(13) != ' ' {
        return false;
    }
    let dd = match (digit_exec(s.get_char(14)), digit_exec(s.get_char(15))) {
        (Some(a), Some(b)) => 10 * a + b,
        _ => { return false; },
    };
    if !(1 <= dd && dd <= 31) {
        return false;
    }
    if s.get_char(16) != '-' {
        return false;
    }
    let mm = match (digit_exec(s.get_char(17)), digit_exec(s.get_char(18))) {
        (Some(a), Some(b)) => 10 * a + b,
        _ => { return false; },
    };
    if !(1 <= mm && mm <= 12) {
        return false;
    }
    if s.get_char(19) != '-' {
        return false;
    }
    match (
        digit_exec(s.get_char(20)),
        digit_exec(s.get_char(21)),
        digit_exec(s.get_char(22)),
        digit_exec(s.get_char(23)),
    ) {
        (Some(_), Some(_), Some(_), Some(_)) => true,
        _ => false,
    }
}

/// Read the announced (date, category) pair out of the message body.
pub fn parse_metadata(body: &str) -> (r: Option<(Date, Planning)>)
    ensures
        r == spec_parse_metadata(body@),
{
    if !body_matches(body) {
        return None;
    }
    let d1 = digit_exec(body.get_char(14)).unwrap();
    let d0 = digit_exec(body.get_char(15)).unwrap();
    let m1 = digit_exec(body.get_char(17)).unwrap();
    let m0 = digit_exec(body.get_char(18)).unwrap();
    let y3 = digit_exec(body.get_char(20)).unwrap();
    let y2 = digit_exec(body.get_char(21)).unwrap();
    let y1 = digit_exec(body.get_char(22)).unwrap();
    let y0 = digit_exec(body.get_char(23)).unwrap();
    let day: u8 = 10 * d1 + d0;
    let month: u8 = 10 * m1 + m0;
    let year: u32 = 1000 * (y3 as u32) + 100 * (y2 as u32) + 10 * (y1 as u32) + (y0 as u32);
    let date = Date { year, month, day };
    if !(1 <= year && day <= days_in_month_exec(year, month)) {
        return None;
    }
    let planning = if body.get_char(12) == 'O' {
        Planning::PO
    } else {
        Planning::PA
    };
    Some((date, planning))
}

/// The end time of a row: the parsed end column, or the fixed default
/// closing time 21:00 when that column is missing or unreadable.
pub open spec fn spec_end_time(s: Seq<char>) -> TimeOfDay {
    match spec_parse_time(s) {
        Some(t) => t,
        None => TimeOfDay { hour: 21, minute: 0 },
    }
}

/// The records derived from the grid rows, in row order. A row yields a
/// record exactly when its start column parses as a time; the fixed column
/// layout is worker id, display name, note, start, end.
pub open spec fn spec_parse_shifts(date: Date, p: Planning, rows: Seq<Seq<Seq<char>>>) -> Seq<
    crate::models::ShiftView,
>
    decreases rows.len(),
{
    if rows.len() == 0 {
        Seq::empty()
    } else {
        let init = spec_parse_shifts(date, p, rows.drop_last());
        let row = rows.last();
        if spec_parse_time(row[3]) is Some {
            init.push(
                crate::models::ShiftView {
                    boff_id: row[0],
                    name: row[1],
                    date,
                    planning: p,
                    start: spec_parse_time(row[3])->0,
                    end: spec_end_time(row[4]),
                    info: if is_blank(row[2]) {
                        None
                    } else {
                        Some(row[2])
                    },
                },
            )
        } else {
            init
        }
    }
}

/// Derive one candidate record per readable row. Every worker in the table
/// is represented; selecting the configured worker is the caller's task.
pub fn parse_shifts(meta: (Date, Planning), data: Vec<Vec<String>>) -> (r: Vec<Shift>)
    requires
        forall|i: int| 0 <= i < data@.len() ==> #[trigger] data@[i]@.len() >= 5,
    ensures
        r@.map_values(|s: Shift| s@) == spec_parse_shifts(meta.0, meta.1, data.deep_view()),
{
    let ghost rows = data.deep_view();
    let mut out: Vec<Shift> = Vec::new();
    let mut i: usize = 0;
    while i < data.len()
        invariant
            0 <= i <= data@.len(),
            rows == data.deep_view(),
            forall|k: int| 0 <= k < data@.len() ==> #[trigger] data@[k]@.len() >= 5,
            out@.map_values(|s: Shift| s@) == spec_parse_shifts(meta.0, meta.1, rows.take(i as int)),
        decreases data@.len() - i,
    {
        let row = &data[i];
        proof {
            assert(rows[i as int] == data@[i as int].deep_view());
            assert(rows[i as int].len() == row@.len());
            assert(rows[i as int][0] == row@[0]@);
            assert(rows[i as int][1] == row@[1]@);
            assert(rows[i as int][2] == row@[2]@);
            assert(rows[i as int][3] == row@[3]@);
            assert(rows[i as int][4] == row@[4]@);
            assert(rows.take(i as int + 1).drop_last() =~= rows.take(i as int));
            assert(rows.take(i as int + 1).last() == rows[i as int]);
        }
        match parse_time(row[3].as_str()) {
            Some(start) => {
                let end = match parse_time(row[4].as_str()) {
                    Some(t) => t,
                    None => TimeOfDay { hour: 21, minute: 0 },
                };
                let info = if blank_exec(&row[2]) {
                    None
                } else {
                    Some(row[2].clone())
                };
                let s = Shift {
                    boff_id: row[0].clone(),
                    name: row[1].clone(),
                    date: meta.0,
                    planning: meta.1,
                    start,
                    end,
                    info,
                };
                let ghost prev = out@;
                out.push(s);
                proof {
                    assert(out@.map_values(|s: Shift| s@) =~= prev.map_values(|s: Shift| s@).push(
                        s@,
                    ));
                }
            },
            None => {},
        }
        i = i + 1;
    }
    proof {
        assert(rows.take(data@.len() as int) =~= rows);
    }
    out
}

/// The first index holding the configured worker's record, or -1.
pub open spec fn spec_find_shift(v: Seq<crate::models::ShiftView>, boff: Seq<char>) -> int
    decreases v.len(),
{
    if v.len() == 0 {
        -1
    } else if v[0].boff_id == boff {
        0
    } else {
        let rest = spec_find_shift(v.drop_first(), boff);
        if rest < 0 {
            -1
        } else {
            rest + 1
        }
    }
}

/// Select the configured worker's record from the derived candidates; all
/// other workers' records are discarded by the caller. The first match is
/// taken, if any.
pub fn select_shift(shifts: Vec<Shift>, boff_id: &String) -> (r: Option<Shift>)
    ensures
        ({
            let v = shifts@.map_values(|s: Shift| s@);
            let k = spec_find_shift(v, boff_id@);
            match r {
                Some(s) => k >= 0 && s@ == v[k],
                None => k < 0,
            }
        }),
{
    let ghost v = shifts@.map_values(|s: Shift| s@);
    let mut i: usize = 0;
    proof {
        assert(v.skip(0) =~= v);
    }
    while i < shifts.len()
        invariant
            0 <= i <= shifts@.len(),
            v == shifts@.map_values(|s: Shift| s@),
            forall|j: int| 0 <= j < i ==> (#[trigger] v[j]).boff_id != boff_id@,
            spec_find_shift(v.skip(i as int), boff_id@) >= 0 ==> spec_find_shift(v, boff_id@)
                == spec_find_shift(v.skip(i as int), boff_id@) + i,
            spec_find_shift(v.skip(i as int), boff_id@) < 0 ==> spec_find_shift(v, boff_id@) < 0,
        decreases shifts@.len() - i,
    {
        proof {
            assert(v.skip(i as int).drop_first() =~= v.skip(i as int + 1));
            assert(v.skip(i as int)[0] == v[i as int]);
        }
        if shifts[i].boff_id == *boff_id {
            let mut shifts = shifts;
            let s = shifts.remove(i);
            proof {
                assert(s@ == v[i as int]);
                assert(spec_find_shift(v.skip(i as int), boff_id@) == 0);
            }
            return Some(s);
        }
        i = i + 1;
    }
    proof {
        assert(v.skip(v.len() as int) =~= Seq::<crate::models::ShiftView>::empty());
    }
    None
}

/// The inbound gate: the body matches the announcement pattern and a JPEG
/// media attachment is present. A message failing this is ignored without
/// side effects; in particular no document analysis and no persistence call
/// is made for it.
pub open spec fn spec_gate(m: WhatsappMessage) -> bool {
    &&& spec_body_matches(m.payload.body@)
    &&& m.payload.media is Some
    &&& m.payload.media->0.mimetype@ == "image/jpeg"@
}

/// Decide whether a message announces a schedule and carries its image.
pub fn parse_schedule(data: &WhatsappMessage) -> (r: bool)
    ensures
        r == spec_gate(*data),
{
    if !body_matches(data.payload.body.as_str()) {
        return false;
    }
    match &data.payload.media {
        Some(media) => {
            let target = String::from_str("image/jpeg");
            media.mimetype == target
        },
        None => false,
    }
}

} // verus!
