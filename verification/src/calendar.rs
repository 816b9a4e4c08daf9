//! Rendering the calendar feed: the allowed-weekday set, placeholder
//! synthesis for the 28 days after the newest record, and one calendar
//! event per record.
//!
//! Event start and end times are local Amsterdam wall-clock moments
//! expressed as UTC timestamps through a trusted chrono wrapper; every
//! other event field is computed and verified here.

use vstd::prelude::*;
use vstd::string::StringExecFns;
use chrono::TimeZone;
use crate::date::{
    Date, TimeOfDay, date_valid, time_valid, day_number, date_plus, spec_date_le, date_le,
    weekday, weekday_number, add_days, lemma_date_plus, lemma_day_number_strict,
};
use crate::models::{
    Planning, Shift, ShiftView, shift_valid, same_key, spec_uid, spec_code, lemma_uid_injective,
};
use crate::store::keys_unique;
use crate::text::{is_space, is_digit, digit_val};

verus! {

/// The set of weekdays on which placeholder shifts are synthesized,
/// indexed by ISO weekday number.
pub struct DaySet {
    pub days: Vec<bool>,
}

pub open spec fn dayset_valid(ds: DaySet) -> bool {
    ds.days@.len() == 7
}

/// Weekday `w` (1 = Monday .. 7 = Sunday) is in the set.
pub open spec fn day_allowed(ds: DaySet, w: int) -> bool {
    1 <= w <= 7 && ds.days@[w - 1]
}

/// Build the allowed-weekday set from the configured list. The list must
/// hold distinct values between 1 and 7; anything else is a fatal
/// configuration error, reported as `None`.
pub fn day_set_from_list(xs: &Vec<u8>) -> (r: Option<DaySet>)
    ensures
        r is Some <==> ((forall|i: int| 0 <= i < xs@.len() ==> 1 <= #[trigger] xs@[i] <= 7) && (
        forall|i: int, j: int| 0 <= i < j < xs@.len() ==> xs@[i] != xs@[j])),
        r matches Some(ds) ==> dayset_valid(ds) && (forall|w: int|
            day_allowed(ds, w) <==> (1 <= w <= 7 && xs@.contains((w as u8)))),
{
    let mut days: Vec<bool> = Vec::new();
    let mut k: usize = 0;
    while k < 7
        invariant
            days@.len() == k,
            k <= 7,
            forall|i: int| 0 <= i < k ==> !(#[trigger] days@[i]),
        decreases 7 - k,
    {
        days.push(false);
        k = k + 1;
    }
    let mut i: usize = 0;
    while i < xs.len()
        invariant
            0 <= i <= xs@.len(),
            days@.len() == 7,
            forall|j: int| 0 <= j < i ==> 1 <= #[trigger] xs@[j] <= 7,
            forall|j: int, l: int| 0 <= j < l < i ==> xs@[j] != xs@[l],
            forall|w: int|
                0 <= w < 7 ==> (#[trigger] days@[w] <==> xs@.take(i as int).contains((w + 1) as u8)),
        decreases xs@.len() - i,
    {
        let d = xs[i];
        if d < 1 || d > 7 {
            return None;
        }
        if days[(d - 1) as usize] {
            proof {
                let j = choose|j: int| 0 <= j < i && xs@.take(i as int)[j] == d;
                assert(xs@[j] == d);
            }
            return None;
        }
        days.set((d - 1) as usize, true);
        proof {
            assert forall|w: int|
                0 <= w < 7 implies (#[trigger] days@[w] <==> xs@.take(i as int + 1).contains(
                (w + 1) as u8,
            )) by {
                if days@[w] {
                    if w + 1 == d {
                        assert(xs@.take(i as int + 1)[i as int] == d);
                    } else {
                        let j = choose|j: int| 0 <= j < i && xs@.take(i as int)[j] == (w + 1) as u8;
                        assert(xs@.take(i as int + 1)[j] == (w + 1) as u8);
                    }
                } else {
                    if xs@.take(i as int + 1).contains((w + 1) as u8) {
                        let j = choose|j: int|
                            0 <= j < i + 1 && #[trigger] xs@.take(i as int + 1)[j] == (w + 1) as u8;
                        assert(j < i ==> xs@.take(i as int)[j] == (w + 1) as u8);
                    }
                }
            }
            assert forall|j: int, l: int| 0 <= j < l < i + 1 implies xs@[j] != xs@[l] by {
                if l == i as int && xs@[j] == xs@[l] {
                    assert(xs@.take(i as int)[j] == d);
                    assert(days@[d - 1]);
                }
            }
        }
        i = i + 1;
    }
    proof {
        assert(xs@.take(xs@.len() as int) =~= xs@);
    }
    Some(DaySet { days })
}

/// The comma-separated pieces of `s` from position `i` on, `cur` being
/// the piece read so far. An empty string yields one empty piece, like
/// the splitting it models.
pub open spec fn split_acc(s: Seq<char>, i: int, cur: Seq<char>) -> Seq<Seq<char>>
    decreases s.len() - i,
{
    if i < 0 || i >= s.len() {
        seq![cur]
    } else if s[i] == ',' {
        seq![cur] + split_acc(s, i + 1, Seq::empty())
    } else {
        split_acc(s, i + 1, cur.push(s[i]))
    }
}

/// The comma-separated pieces of `s`.
pub open spec fn split_commas(s: Seq<char>) -> Seq<Seq<char>> {
    split_acc(s, 0, Seq::empty())
}

/// `s` with leading whitespace removed.
pub open spec fn trim_front(s: Seq<char>) -> Seq<char>
    decreases s.len(),
{
    if s.len() > 0 && is_space(s[0]) {
        trim_front(s.drop_first())
    } else {
        s
    }
}

/// `s` with trailing whitespace removed.
pub open spec fn trim_back(s: Seq<char>) -> Seq<char>
    decreases s.len(),
{
    if s.len() > 0 && is_space(s.last()) {
        trim_back(s.drop_last())
    } else {
        s
    }
}

/// `s` with surrounding whitespace removed.
pub open spec fn spec_trim(s: Seq<char>) -> Seq<char> {
    trim_back(trim_front(s))
}

/// The decimal value of a digit string.
pub open spec fn dec_value(s: Seq<char>) -> int
    decreases s.len(),
{
    if s.len() == 0 {
        0
    } else {
        dec_value(s.drop_last()) * 10 + digit_val(s.last())
    }
}

pub open spec fn all_digits(s: Seq<char>) -> bool {
    forall|i: int| 0 <= i < s.len() ==> is_digit(#[trigger] s[i])
}

/// The number a configured piece stands for: its trimmed text must be a
/// nonempty digit string with a value that fits in a byte.
pub open spec fn seg_value(seg: Seq<char>) -> Option<int> {
    let t = spec_trim(seg);
    if t.len() > 0 && all_digits(t) && dec_value(t) <= 255 {
        Some(dec_value(t))
    } else {
        None
    }
}

/// The whole configured list is well-formed: every piece is a number
/// between 1 and 7 and no two pieces repeat a number.
pub open spec fn spec_days_ok(s: Seq<char>) -> bool {
    let segs = split_commas(s);
    &&& forall|k: int|
        0 <= k < segs.len() ==> ((#[trigger] seg_value(segs[k])) matches Some(v) && 1 <= v <= 7)
    &&& forall|k: int, l: int|
        0 <= k < l < segs.len() ==> seg_value(segs[k]) != seg_value(segs[l])
}

/// Weekday `w` occurs in the configured list.
pub open spec fn spec_days_has(s: Seq<char>, w: int) -> bool {
    exists|k: int|
        0 <= k < split_commas(s).len() && #[trigger] seg_value(split_commas(s)[k]) == Some(w)
}

proof fn lemma_trim_front_at(s: Seq<char>, a: int)
    requires
        0 <= a <= s.len(),
        forall|i: int| 0 <= i < a ==> is_space(#[trigger] s[i]),
        a == s.len() || !is_space(s[a]),
    ensures
        trim_front(s) == s.skip(a),
    decreases a,
{
    if a == 0 {
        assert(s.skip(0) =~= s);
    } else {
        lemma_trim_front_at(s.drop_first(), a - 1);
        assert(s.drop_first().skip(a - 1) =~= s.skip(a));
    }
}

proof fn lemma_trim_back_at(s: Seq<char>, b: int)
    requires
        0 <= b <= s.len(),
        forall|i: int| b <= i < s.len() ==> is_space(#[trigger] s[i]),
        b == 0 || !is_space(s[b - 1]),
    ensures
        trim_back(s) == s.take(b),
    decreases s.len() - b,
{
    if b == s.len() {
        assert(s.take(b) =~= s);
    } else {
        lemma_trim_back_at(s.drop_last(), b);
    }
}

proof fn lemma_dec_value_bounds(s: Seq<char>)
    requires
        all_digits(s),
    ensures
        dec_value(s) >= 0,
        s.len() > 0 ==> dec_value(s) >= dec_value(s.drop_last()),
    decreases s.len(),
{
    if s.len() > 0 {
        assert(all_digits(s.drop_last())) by {
            assert(forall|i: int|
                0 <= i < s.len() - 1 ==> s.drop_last()[i] == #[trigger] s[i]);
        }
        lemma_dec_value_bounds(s.drop_last());
    }
}

/// Read one configured piece as a number.
fn seg_value_exec(seg: &String) -> (r: Option<u8>)
    ensures
        match r {
            Some(v) => seg_value(seg@) == Some(v as int),
            None => seg_value(seg@) is None,
        },
{
    let st = seg.as_str();
    let n = st.unicode_len();
    let mut a: usize = 0;
    while a < n && crate::text::is_space_exec(st.get_char(a))
        invariant
            0 <= a <= n,
            n == seg@.len(),
            st@ == seg@,
            forall|i: int| 0 <= i < a ==> is_space(#[trigger] seg@[i]),
        decreases n - a,
    {
        a = a + 1;
    }
    let mut b: usize = n;
    while b > a && crate::text::is_space_exec(st.get_char(b - 1))
        invariant
            a <= b <= n,
            n == seg@.len(),
            st@ == seg@,
            forall|i: int| b <= i < n ==> is_space(#[trigger] seg@[i]),
        decreases b,
    {
        b = b - 1;
    }
    proof {
        lemma_trim_front_at(seg@, a as int);
        let rest = seg@.skip(a as int);
        lemma_trim_back_at(rest, b as int - a as int);
        assert(rest.take(b as int - a as int) =~= seg@.subrange(a as int, b as int));
        assert(spec_trim(seg@) == seg@.subrange(a as int, b as int));
    }
    let ghost t = seg@.subrange(a as int, b as int);
    if a == b {
        return None;
    }
    let mut val: u32 = 0;
    let mut i: usize = a;
    while i < b
        invariant
            a <= i <= b <= n,
            n == seg@.len(),
            st@ == seg@,
            t == seg@.subrange(a as int, b as int),
            t == spec_trim(seg@),
            all_digits(t.take(i as int - a as int)),
            val == dec_value(t.take(i as int - a as int)),
            val <= 255,
        decreases b - i,
    {
        let c = st.get_char(i);
        let v = c as u32;
        proof {
            assert(t[i as int - a as int] == seg@[i as int]);
            assert(t.take(i as int + 1 - a as int).drop_last() =~= t.take(i as int - a as int));
        }
        if v < 48 || v > 57 {
            proof {
                assert(!is_digit(t[i as int - a as int]));
            }
            return None;
        }
        val = val * 10 + (v - 48);
        if val > 255 {
            proof {
                if all_digits(t) {
                    assert(t.take(t.len() as int) =~= t);
                    lemma_dec_prefix(t, i as int + 1 - a as int, t.len() as int);
                    assert(dec_value(t) > 255);
                }
            }
            return None;
        }
        i = i + 1;
    }
    proof {
        assert(t.take(t.len() as int) =~= t);
    }
    Some(val as u8)
}

/// Digit prefixes never exceed the whole number's value.
proof fn lemma_dec_prefix(s: Seq<char>, k: int, l: int)
    requires
        0 <= k <= l <= s.len(),
        all_digits(s.take(l)),
    ensures
        dec_value(s.take(k)) <= dec_value(s.take(l)),
    decreases l - k,
{
    if k < l {
        lemma_dec_prefix(s, k, l - 1);
        assert(all_digits(s.take(l - 1))) by {
            assert(forall|i: int| 0 <= i < l - 1 ==> s.take(l - 1)[i] == #[trigger] s.take(l)[i]);
        }
        assert(s.take(l).drop_last() =~= s.take(l - 1));
        lemma_dec_value_bounds(s.take(l));
    }
}

/// Split the configured text on commas.
fn split_commas_exec(s: &str) -> (r: Vec<String>)
    ensures
        r@.map_values(|x: String| x@) == split_commas(s@),
{
    let n = s.unicode_len();
    let mut segs: Vec<String> = Vec::new();
    let mut start: usize = 0;
    let mut i: usize = 0;
    proof {
        assert(s@.subrange(0, 0) =~= Seq::<char>::empty());
        assert(segs@.map_values(|x: String| x@) =~= Seq::<Seq<char>>::empty());
    }
    while i < n
        invariant
            0 <= start <= i <= n,
            n == s@.len(),
            split_commas(s@) == segs@.map_values(|x: String| x@) + split_acc(
                s@,
                i as int,
                s@.subrange(start as int, i as int),
            ),
        decreases n - i,
    {
        let c = s.get_char(i);
        if c == ',' {
            let ghost prev = segs@;
            let piece = s.substring_char(start, i).to_owned();
            segs.push(piece);
            proof {
                assert(piece@ == s@.subrange(start as int, i as int));
                assert(segs@.map_values(|x: String| x@) =~= prev.map_values(|x: String| x@).push(
                    s@.subrange(start as int, i as int),
                ));
                assert((prev.map_values(|x: String| x@).push(
                    s@.subrange(start as int, i as int),
                )) + split_acc(s@, i as int + 1, Seq::empty()) =~= prev.map_values(
                    |x: String| x@,
                ) + (seq![s@.subrange(start as int, i as int)] + split_acc(
                    s@,
                    i as int + 1,
                    Seq::empty(),
                )));
                assert(s@.subrange(i as int + 1, i as int + 1) =~= Seq::<char>::empty());
            }
            start = i + 1;
        } else {
            proof {
                assert(s@.subrange(start as int, i as int + 1) =~= s@.subrange(
                    start as int,
                    i as int,
                ).push(s@[i as int]));
            }
        }
        i = i + 1;
    }
    let piece = s.substring_char(start, n).to_owned();
    segs.push(piece);
    segs
}

/// Parse the configured weekday list: numbers between 1 and 7, separated
/// by commas, whitespace around each allowed, no repeats. Anything else
/// is a fatal configuration error, reported as `None`.
pub fn parse_days(s: &str) -> (r: Option<DaySet>)
    ensures
        r is Some <==> spec_days_ok(s@),
        r matches Some(ds) ==> dayset_valid(ds) && (forall|w: int|
            day_allowed(ds, w) <==> (1 <= w <= 7 && spec_days_has(s@, w))),
{
    let ghost segsv = split_commas(s@);
    let segs = split_commas_exec(s);
    let mut vals: Vec<u8> = Vec::new();
    let mut k: usize = 0;
    while k < segs.len()
        invariant
            0 <= k <= segs@.len(),
            segsv == segs@.map_values(|x: String| x@),
            segsv == split_commas(s@),
            vals@.len() == k,
            forall|j: int|
                0 <= j < k ==> seg_value(segsv[j]) == Some((#[trigger] vals@[j]) as int),
        decreases segs@.len() - k,
    {
        match seg_value_exec(&segs[k]) {
            Some(v) => {
                vals.push(v);
            },
            None => {
                proof {
                    assert(seg_value(segsv[k as int]) is None);
                }
                return None;
            },
        }
        k = k + 1;
    }
    let r = day_set_from_list(&vals);
    proof {
        match &r {
            Some(ds) => {
                assert forall|k2: int|
                    0 <= k2 < segsv.len() implies ((#[trigger] seg_value(segsv[k2])) matches Some(
                    v,
                ) && 1 <= v <= 7) by {
                    assert(seg_value(segsv[k2]) == Some(vals@[k2] as int));
                    assert(1 <= vals@[k2] <= 7);
                }
                assert forall|k2: int, l2: int|
                    0 <= k2 < l2 < segsv.len() implies seg_value(segsv[k2]) != seg_value(
                    segsv[l2],
                ) by {
                    assert(seg_value(segsv[k2]) == Some(vals@[k2] as int));
                    assert(seg_value(segsv[l2]) == Some(vals@[l2] as int));
                    assert(vals@[k2] != vals@[l2]);
                }
                assert(spec_days_ok(s@));
                assert forall|w: int|
                    day_allowed(*ds, w) <==> (1 <= w <= 7 && spec_days_has(s@, w)) by {
                    if 1 <= w <= 7 {
                        if vals@.contains(w as u8) {
                            let j = choose|j: int|
                                0 <= j < vals@.len() && #[trigger] vals@[j] == w as u8;
                            assert(seg_value(segsv[j]) == Some(w));
                        }
                        if spec_days_has(s@, w) {
                            let j = choose|j: int|
                                0 <= j < segsv.len() && #[trigger] seg_value(segsv[j]) == Some(w);
                            assert(vals@[j] == w as u8);
                        }
                    }
                }
            },
            None => {
                if spec_days_ok(s@) {
                    assert forall|j: int| 0 <= j < vals@.len() implies 1 <= (#[trigger] vals@[j])
                        <= 7 by {
                        assert(seg_value(segsv[j]) == Some(vals@[j] as int));
                    }
                    assert forall|j: int, l: int|
                        0 <= j < l < vals@.len() implies vals@[j] != vals@[l] by {
                        assert(seg_value(segsv[j]) == Some(vals@[j] as int));
                        assert(seg_value(segsv[l]) == Some(vals@[l] as int));
                    }
                    assert(false);
                }
            },
        }
    }
    r
}

/// Whether weekday `w` is in the set.
pub fn day_allowed_exec(ds: &DaySet, w: u8) -> (r: bool)
    requires
        dayset_valid(*ds),
        1 <= w <= 7,
    ensures
        r == day_allowed(*ds, w as int),
{
    ds.days[(w - 1) as usize]
}

/// One rendered calendar event. All fields are plain text, ready for the
/// feed serializer.
pub struct CalendarEvent {
    pub uid: String,
    pub dtstamp: String,
    pub dtstart: String,
    pub dtend: String,
    pub summary: String,
    pub location: String,
    pub description: Option<String>,
}

/// The fixed location line carried by every event.
pub open spec fn spec_location() -> Seq<char> {
    "HSC Bleiswijk\\nAquamarijnweg 2\\, 2665 PB\\nBleiswijk\\, Netherlands"@
}

fn location_text() -> (r: String)
    ensures
        r@ == spec_location(),
{
    String::from_str("HSC Bleiswijk\\nAquamarijnweg 2\\, 2665 PB\\nBleiswijk\\, Netherlands")
}

/// What the timezone conversion returns for a local Amsterdam wall-clock
/// moment: its UTC rendering "YYYYMMDDThhmmssZ", or `None` around a
/// daylight-saving transition. A function of its arguments alone.
pub uninterp spec fn utc_timestamp(
    year: int,
    month: int,
    day: int,
    hour: int,
    minute: int,
) -> Option<Seq<char>>;

/// Relies on chrono_tz's Europe/Amsterdam table with chrono's
/// `from_local_datetime`, UTC conversion and formatting: the moment is
/// interpreted on the Amsterdam wall clock and rendered in UTC; a local
/// time skipped or repeated by a daylight-saving transition yields `None`.
#[verifier::external_body]
pub fn combine(date: &Date, time: &TimeOfDay) -> (r: Option<String>)
    requires
        date_valid(*date),
        time_valid(*time),
    ensures
        match r {
            Some(s) => utc_timestamp(
                date.year as int,
                date.month as int,
                date.day as int,
                time.hour as int,
                time.minute as int,
            ) == Some(s@),
            None => utc_timestamp(
                date.year as int,
                date.month as int,
                date.day as int,
                time.hour as int,
                time.minute as int,
            ) is None,
        },
{
    let nd = chrono::NaiveDate::from_ymd_opt(date.year as i32, date.month as u32, date.day as u32)?;
    let nt = chrono::NaiveTime::from_hms_opt(time.hour as u32, time.minute as u32, 0)?;
    let local = chrono_tz::Europe::Amsterdam.from_local_datetime(&nd.and_time(nt)).single()?;
    let utc = local.with_timezone(&chrono::Utc);
    Some(format!("{}", utc.format("%Y%m%dT%H%M%SZ")))
}

/// Relies on chrono's `Utc::now` and formatting: the render moment as
/// "YYYYMMDDThhmmssZ". Nothing further is promised of it.
#[verifier::external_body]
pub fn now_stamp() -> (r: String)
    ensures
        r@.len() >= 16,
{
    format!("{}", chrono::Utc::now().format("%Y%m%dT%H%M%SZ"))
}

/// The newest date among the records (the last one, when several carry it).
pub open spec fn spec_latest(s: Seq<ShiftView>) -> Date
    decreases s.len(),
{
    if s.len() <= 1 {
        s[0].date
    } else {
        let rest = spec_latest(s.drop_last());
        if spec_date_le(rest, s.last().date) {
            s.last().date
        } else {
            rest
        }
    }
}

/// The anchor for placeholder synthesis: the newest persisted date, or
/// today when nothing is persisted.
pub open spec fn spec_anchor(s: Seq<ShiftView>, today: Date) -> Date {
    if s.len() == 0 {
        today
    } else {
        spec_latest(s)
    }
}

/// The newest date is one of the records' dates and bounds all of them.
pub proof fn lemma_latest(s: Seq<ShiftView>)
    requires
        s.len() > 0,
    ensures
        exists|i: int| 0 <= i < s.len() && (#[trigger] s[i].date) == spec_latest(s),
        forall|i: int| 0 <= i < s.len() ==> spec_date_le(#[trigger] s[i].date, spec_latest(s)),
    decreases s.len(),
{
    if s.len() > 1 {
        lemma_latest(s.drop_last());
        let rest = spec_latest(s.drop_last());
        assert forall|i: int| 0 <= i < s.len() implies spec_date_le(
            #[trigger] s[i].date,
            spec_latest(s),
        ) by {
            if i < s.len() - 1 {
                assert(s.drop_last()[i] == s[i]);
                assert(spec_date_le(s[i].date, rest));
            }
        }
        if spec_date_le(rest, s.last().date) {
            assert(s[s.len() - 1].date == spec_latest(s));
        } else {
            let j = choose|j: int|
                0 <= j < s.drop_last().len() && (#[trigger] s.drop_last()[j].date) == rest;
            assert(s[j].date == spec_latest(s));
        }
    } else {
        assert(s[0].date == spec_latest(s));
    }
}

/// The anchor date among well-formed records.
fn anchor_date(shifts: &Vec<Shift>, today: &Date) -> (r: Date)
    ensures
        r == spec_anchor(shifts@.map_values(|s: Shift| s@), *today),
{
    let ghost v = shifts@.map_values(|s: Shift| s@);
    if shifts.len() == 0 {
        return *today;
    }
    let mut best = shifts[0].date;
    let mut i: usize = 1;
    proof {
        assert(v.take(1).len() == 1);
        assert(v.take(1)[0] == v[0]);
    }
    while i < shifts.len()
        invariant
            1 <= i <= v.len(),
            v == shifts@.map_values(|s: Shift| s@),
            v.len() == shifts@.len(),
            best == spec_latest(v.take(i as int)),
        decreases v.len() - i,
    {
        proof {
            assert(v.take(i as int + 1).drop_last() =~= v.take(i as int));
            assert(v.take(i as int + 1).last() == v[i as int]);
        }
        if date_le(&best, &shifts[i].date) {
            best = shifts[i].date;
        }
        i = i + 1;
    }
    proof {
        assert(v.take(v.len() as int) =~= v);
    }
    best
}

/// The placeholder record synthesized for date `d`.
pub open spec fn placeholder_view(d: Date, boff: Seq<char>) -> ShiftView {
    ShiftView {
        boff_id: boff,
        name: Seq::empty(),
        date: d,
        planning: Planning::PA,
        start: TimeOfDay { hour: 15, minute: 0 },
        end: TimeOfDay { hour: 22, minute: 0 },
        info: None,
    }
}

/// Placeholders for the allowed weekdays among the first `n` days after
/// the anchor, in date order.
pub open spec fn future_views_upto(anchor: Date, ds: DaySet, boff: Seq<char>, n: int) -> Seq<
    ShiftView,
>
    decreases n,
{
    if n <= 0 {
        Seq::empty()
    } else {
        let init = future_views_upto(anchor, ds, boff, n - 1);
        let d = date_plus(anchor, n);
        if day_allowed(ds, weekday(d)) {
            init.push(placeholder_view(d, boff))
        } else {
            init
        }
    }
}

/// The synthesized placeholders: allowed weekdays in the 28-day window
/// after the anchor.
pub open spec fn spec_future_views(anchor: Date, ds: DaySet, boff: Seq<char>) -> Seq<ShiftView> {
    future_views_upto(anchor, ds, boff, 28)
}

/// Synthesize the placeholder records for the window after `anchor`.
pub fn future_shifts(anchor: &Date, ds: &DaySet, boff_id: &String) -> (r: Vec<Shift>)
    requires
        date_valid(*anchor),
        anchor.year <= 9998,
        dayset_valid(*ds),
    ensures
        r@.map_values(|s: Shift| s@) == spec_future_views(*anchor, *ds, boff_id@),
{
    let mut out: Vec<Shift> = Vec::new();
    let mut n: u32 = 1;
    proof {
        assert(out@.map_values(|s: Shift| s@) =~= future_views_upto(*anchor, *ds, boff_id@, 0));
    }
    while n <= 28
        invariant
            1 <= n <= 29,
            date_valid(*anchor),
            anchor.year <= 9998,
            dayset_valid(*ds),
            out@.map_values(|s: Shift| s@) == future_views_upto(
                *anchor,
                *ds,
                boff_id@,
                n as int - 1,
            ),
        decreases 29 - n,
    {
        let d = add_days(anchor, n);
        let w = weekday_number(&d);
        if day_allowed_exec(ds, w) {
            let ghost prev = out@;
            out.push(Shift::default(d, boff_id.clone()));
            proof {
                assert(out@.map_values(|s: Shift| s@) =~= prev.map_values(|s: Shift| s@).push(
                    placeholder_view(d, boff_id@),
                ));
            }
        }
        n = n + 1;
    }
    out
}

/// The UTC rendering of a record's start moment.
pub open spec fn start_ts(v: ShiftView) -> Option<Seq<char>> {
    utc_timestamp(
        v.date.year as int,
        v.date.month as int,
        v.date.day as int,
        v.start.hour as int,
        v.start.minute as int,
    )
}

/// The UTC rendering of a record's end moment.
pub open spec fn end_ts(v: ShiftView) -> Option<Seq<char>> {
    utc_timestamp(
        v.date.year as int,
        v.date.month as int,
        v.date.day as int,
        v.end.hour as int,
        v.end.minute as int,
    )
}

/// The full record list a feed renders: the persisted records followed by
/// the synthesized placeholders.
pub open spec fn spec_calendar_records(
    shifts: Seq<ShiftView>,
    ds: DaySet,
    today: Date,
    boff: Seq<char>,
) -> Seq<ShiftView> {
    shifts + spec_future_views(spec_anchor(shifts, today), ds, boff)
}

/// Event `e` renders record `v`: uid, start, end, summary, location and
/// description are all determined by the record.
pub open spec fn event_matches(v: ShiftView, e: CalendarEvent) -> bool {
    &&& e.uid@ == spec_uid(v)
    &&& start_ts(v) == Some(e.dtstart@)
    &&& end_ts(v) == Some(e.dtend@)
    &&& e.summary@ == spec_code(v)
    &&& e.location@ == spec_location()
    &&& (match v.info {
        Some(t) => e.description matches Some(d) && d@ == t,
        None => e.description is None,
    })
}

/// The event list renders the record list, one event per record, in order.
pub open spec fn calendar_matches(recs: Seq<ShiftView>, evs: Seq<CalendarEvent>) -> bool {
    &&& evs.len() == recs.len()
    &&& forall|i: int| 0 <= i < recs.len() ==> event_matches(#[trigger] recs[i], evs[i])
}

/// Render the calendar feed for the given persisted records: placeholders
/// are synthesized after the newest record (or after `today` when nothing
/// is persisted) and every record becomes one event. `None` only when a
/// record's wall-clock moment falls into a daylight-saving transition.
pub fn get_calendar(shifts: Vec<Shift>, ds: &DaySet, today: &Date, boff_id: &String) -> (r:
    Option<Vec<CalendarEvent>>)
    requires
        dayset_valid(*ds),
        date_valid(*today),
        today.year <= 9998,
        forall|i: int| 0 <= i < shifts@.len() ==> shift_valid(#[trigger] shifts@[i]@),
        forall|i: int| 0 <= i < shifts@.len() ==> (#[trigger] shifts@[i]@).date.year <= 9998,
    ensures
        ({
            let recs = spec_calendar_records(
                shifts@.map_values(|s: Shift| s@),
                *ds,
                *today,
                boff_id@,
            );
            match r {
                Some(evs) => calendar_matches(recs, evs@) && (forall|i: int, j: int|
                    0 <= i < evs@.len() && 0 <= j < evs@.len() ==> (#[trigger] evs@[i].dtstamp)@
                        == (#[trigger] evs@[j].dtstamp)@),
                None => exists|i: int|
                    0 <= i < recs.len() && (start_ts(#[trigger] recs[i]) is None || end_ts(
                        recs[i],
                    ) is None),
            }
        }),
{
    let ghost persisted = shifts@.map_values(|s: Shift| s@);
    let anchor = anchor_date(&shifts, today);
    proof {
        if persisted.len() > 0 {
            lemma_latest(persisted);
            let i = choose|i: int|
                0 <= i < persisted.len() && (#[trigger] persisted[i].date) == spec_latest(
                    persisted,
                );
            assert(shift_valid(shifts@[i]@));
        }
    }
    let fut = future_shifts(&anchor, ds, boff_id);
    let mut all = shifts;
    let mut fut = fut;
    all.append(&mut fut);
    let ghost recs = spec_calendar_records(persisted, *ds, *today, boff_id@);
    proof {
        assert(all@.map_values(|s: Shift| s@) =~= recs);
        lemma_placeholder_dates(spec_anchor(persisted, *today), *ds, boff_id@, 28);
        let futs = spec_future_views(spec_anchor(persisted, *today), *ds, boff_id@);
        assert forall|k: int| 0 <= k < all@.len() implies shift_valid(#[trigger] all@[k]@) by {
            assert(all@[k]@ == recs[k]);
            if k < persisted.len() {
                assert(recs[k] == persisted[k]);
                assert(persisted[k] == shifts@[k]@);
            } else {
                assert(recs[k] == futs[k - persisted.len()]);
            }
        }
    }
    let stamp = now_stamp();
    let location = location_text();
    let mut events: Vec<CalendarEvent> = Vec::new();
    let mut i: usize = 0;
    while i < all.len()
        invariant
            0 <= i <= all@.len(),
            recs == all@.map_values(|s: Shift| s@),
            recs == spec_calendar_records(persisted, *ds, *today, boff_id@),
            persisted == shifts@.map_values(|s: Shift| s@),
            forall|k: int| 0 <= k < all@.len() ==> shift_valid(#[trigger] all@[k]@),
            location@ == spec_location(),
            events@.len() == i,
            forall|k: int| 0 <= k < i ==> event_matches(#[trigger] recs[k], events@[k]),
            forall|k: int| 0 <= k < i ==> (#[trigger] events@[k].dtstamp)@ == stamp@,
        decreases all@.len() - i,
    {
        let s = &all[i];
        proof {
            assert(s@ == recs[i as int]);
        }
        let start = match combine(&s.date, &s.start) {
            Some(x) => x,
            None => {
                proof {
                    assert(start_ts(recs[i as int]) is None);
                }
                return None;
            },
        };
        let end = match combine(&s.date, &s.end) {
            Some(x) => x,
            None => {
                proof {
                    assert(end_ts(recs[i as int]) is None);
                }
                return None;
            },
        };
        let description = match &s.info {
            Some(t) => Some(t.clone()),
            None => None,
        };
        let ev = CalendarEvent {
            uid: s.uid(),
            dtstamp: stamp.clone(),
            dtstart: start,
            dtend: end,
            summary: s.code(),
            location: location.clone(),
            description,
        };
        events.push(ev);
        i = i + 1;
    }
    Some(events)
}

/// Every record a feed renders is well-formed: the persisted ones by
/// assumption, the placeholders by construction.
pub proof fn lemma_placeholder_dates(anchor: Date, ds: DaySet, boff: Seq<char>, n: int)
    requires
        date_valid(anchor),
        anchor.year <= 9998,
        0 <= n <= 28,
    ensures
        forall|i: int|
            0 <= i < future_views_upto(anchor, ds, boff, n).len() ==> shift_valid(
                #[trigger] future_views_upto(anchor, ds, boff, n)[i],
            ),
    decreases n,
{
    if n > 0 {
        lemma_placeholder_dates(anchor, ds, boff, n - 1);
        lemma_date_plus(anchor, n);
        let init = future_views_upto(anchor, ds, boff, n - 1);
        let cur = future_views_upto(anchor, ds, boff, n);
        assert forall|i: int| 0 <= i < cur.len() implies shift_valid(cur[i]) by {
            if i < init.len() {
                assert(cur[i] == init[i]);
            } else {
                assert(cur[i] == placeholder_view(date_plus(anchor, n), boff));
            }
        }
    }
}

/// Placeholder synthesis is exact: every synthesized record falls on an
/// allowed weekday strictly after the anchor and at most `n` days out,
/// uses the default window and category, every allowed day of the window
/// is covered, and the dates strictly increase (so each day appears once).
pub proof fn lemma_placeholders_exact(anchor: Date, ds: DaySet, boff: Seq<char>, n: int)
    requires
        date_valid(anchor),
        anchor.year <= 9998,
        0 <= n <= 28,
    ensures
        forall|i: int|
            0 <= i < future_views_upto(anchor, ds, boff, n).len() ==> exists|m: int|
                1 <= m <= n && #[trigger] future_views_upto(anchor, ds, boff, n)[i]
                    == placeholder_view(date_plus(anchor, m), boff) && day_allowed(
                    ds,
                    weekday(date_plus(anchor, m)),
                ) && day_number(date_plus(anchor, m)) == day_number(anchor) + m,
        forall|m: int|
            1 <= m <= n && day_allowed(ds, weekday(date_plus(anchor, m)))
                ==> future_views_upto(anchor, ds, boff, n).contains(
                placeholder_view(date_plus(anchor, m), boff),
            ),
        forall|i: int|
            0 <= i < future_views_upto(anchor, ds, boff, n).len() ==> day_number(
                (#[trigger] future_views_upto(anchor, ds, boff, n)[i]).date,
            ) <= day_number(anchor) + n,
        forall|i: int, j: int|
            0 <= i < j < future_views_upto(anchor, ds, boff, n).len() ==> day_number(
                future_views_upto(anchor, ds, boff, n)[i].date,
            ) < day_number(future_views_upto(anchor, ds, boff, n)[j].date),
    decreases n,
{
    if n > 0 {
        lemma_placeholders_exact(anchor, ds, boff, n - 1);
        lemma_date_plus(anchor, n);
        let init = future_views_upto(anchor, ds, boff, n - 1);
        let cur = future_views_upto(anchor, ds, boff, n);
        let d = date_plus(anchor, n);
        assert forall|i: int|
            0 <= i < cur.len() implies exists|m: int|
                1 <= m <= n && #[trigger] cur[i] == placeholder_view(date_plus(anchor, m), boff)
                    && day_allowed(ds, weekday(date_plus(anchor, m))) && day_number(
                    date_plus(anchor, m),
                ) == day_number(anchor) + m by {
            if i < init.len() {
                assert(cur[i] == init[i]);
                let m = choose|m: int|
                    1 <= m <= n - 1 && #[trigger] init[i] == placeholder_view(
                        date_plus(anchor, m),
                        boff,
                    ) && day_allowed(ds, weekday(date_plus(anchor, m))) && day_number(
                        date_plus(anchor, m),
                    ) == day_number(anchor) + m;
                assert(cur[i] == placeholder_view(date_plus(anchor, m), boff));
            } else {
                assert(day_allowed(ds, weekday(d)));
                assert(cur[i] == placeholder_view(d, boff));
            }
        }
        assert forall|m: int|
            1 <= m <= n && day_allowed(ds, weekday(date_plus(anchor, m))) implies cur.contains(
            placeholder_view(date_plus(anchor, m), boff),
        ) by {
            if m < n {
                assert(init.contains(placeholder_view(date_plus(anchor, m), boff)));
                let j = choose|j: int|
                    0 <= j < init.len() && #[trigger] init[j] == placeholder_view(
                        date_plus(anchor, m),
                        boff,
                    );
                assert(cur[j] == placeholder_view(date_plus(anchor, m), boff));
            } else {
                assert(cur[cur.len() - 1] == placeholder_view(d, boff));
            }
        }
        assert forall|i: int, j: int|
            0 <= i < j < cur.len() implies day_number(cur[i].date) < day_number(
            cur[j].date,
        ) by {
            if j < init.len() {
                assert(cur[i] == init[i] && cur[j] == init[j]);
            } else if j == init.len() && i < init.len() {
                assert(cur[i] == init[i]);
                assert(day_number(init[i].date) <= day_number(anchor) + n - 1);
                assert(cur[j] == placeholder_view(d, boff));
            }
        }
    }
}

/// Within one rendered feed no two events share a uid, provided the
/// persisted records came from the keyed store.
pub proof fn lemma_uids_unique(
    shifts: Seq<ShiftView>,
    ds: DaySet,
    today: Date,
    boff: Seq<char>,
    evs: Seq<CalendarEvent>,
)
    requires
        dayset_valid(ds),
        date_valid(today),
        today.year <= 9998,
        forall|i: int|
            0 <= i < shifts.len() ==> shift_valid(#[trigger] shifts[i]) && shifts[i].date.year
                <= 9998,
        keys_unique(shifts),
        calendar_matches(spec_calendar_records(shifts, ds, today, boff), evs),
    ensures
        forall|i: int, j: int|
            0 <= i < j < evs.len() ==> (#[trigger] evs[i].uid)@ != (#[trigger] evs[j].uid)@,
{
    let anchor = spec_anchor(shifts, today);
    if shifts.len() > 0 {
        lemma_latest(shifts);
        let w = choose|i: int|
            0 <= i < shifts.len() && (#[trigger] shifts[i].date) == spec_latest(shifts);
        assert(shift_valid(shifts[w]));
    }
    lemma_placeholders_exact(anchor, ds, boff, 28);
    lemma_placeholder_dates(anchor, ds, boff, 28);
    let futs = spec_future_views(anchor, ds, boff);
    let recs = spec_calendar_records(shifts, ds, today, boff);
    assert forall|i: int, j: int| 0 <= i < j < evs.len() implies (#[trigger] evs[i].uid)@ != (
    #[trigger] evs[j].uid)@ by {
        assert(event_matches(recs[i], evs[i]));
        assert(event_matches(recs[j], evs[j]));
        if j < shifts.len() {
            assert(recs[i] == shifts[i] && recs[j] == shifts[j]);
            assert(!same_key(recs[i], recs[j]));
        } else if i < shifts.len() {
            assert(recs[i] == shifts[i]);
            assert(recs[j] == futs[j - shifts.len()]);
            let m = choose|m: int|
                1 <= m <= 28 && #[trigger] futs[j - shifts.len()] == placeholder_view(
                    date_plus(anchor, m),
                    boff,
                ) && day_allowed(ds, weekday(date_plus(anchor, m))) && day_number(
                    date_plus(anchor, m),
                ) == day_number(anchor) + m;
            assert(spec_date_le(shifts[i].date, anchor));
            if shifts[i].date == anchor {
                assert(day_number(recs[i].date) == day_number(anchor));
            } else {
                lemma_day_number_strict(shifts[i].date, anchor);
            }
            assert(day_number(recs[j].date) > day_number(anchor));
            assert(recs[i].date != recs[j].date);
            assert(!same_key(recs[i], recs[j]));
        } else {
            assert(recs[i] == futs[i - shifts.len()]);
            assert(recs[j] == futs[j - shifts.len()]);
            assert(day_number(recs[i].date) < day_number(recs[j].date));
            assert(!same_key(recs[i], recs[j]));
        }
        assert(date_valid(recs[i].date) && date_valid(recs[j].date));
        lemma_uid_injective(recs[i], recs[j]);
    }
}

/// Re-rendering one persisted state yields identical uids, starts, ends
/// and summaries: every event field except the creation stamp is a
/// function of the records alone.
pub proof fn lemma_rerender_stable(
    recs: Seq<ShiftView>,
    e1: Seq<CalendarEvent>,
    e2: Seq<CalendarEvent>,
)
    requires
        calendar_matches(recs, e1),
        calendar_matches(recs, e2),
    ensures
        e1.len() == e2.len(),
        forall|i: int|
            0 <= i < e1.len() ==> (#[trigger] e1[i].uid)@ == e2[i].uid@ && e1[i].dtstart@
                == e2[i].dtstart@ && e1[i].dtend@ == e2[i].dtend@ && e1[i].summary@
                == e2[i].summary@,
{
    assert forall|i: int|
        0 <= i < e1.len() implies (#[trigger] e1[i].uid)@ == e2[i].uid@ && e1[i].dtstart@
        == e2[i].dtstart@ && e1[i].dtend@ == e2[i].dtend@ && e1[i].summary@ == e2[i].summary@ by {
        assert(event_matches(recs[i], e1[i]));
        assert(event_matches(recs[i], e2[i]));
    }
}

} // verus!
