//! The record types: inbound webhook messages, shift records, and the two
//! shift categories, together with the derived uid and summary-code strings.

use vstd::prelude::*;
use vstd::string::StringExecFns;
use crate::date::{Date, TimeOfDay, date_valid, time_valid, weekday, weekday_number};
use crate::text::{two_digits, four_digits, push_two_digits, push_four_digits};
use crate::text::{lemma_two_digits_injective, lemma_four_digits_injective};

verus! {

/// The two mutually exclusive shift categories a worker may hold on a day.
#[derive(Clone, Copy, Debug, PartialEq, Eq, Structural)]
pub enum Planning {
    PO,
    PA,
}

/// A media attachment carried by a webhook message.
pub struct WhatsappMedia {
    pub url: String,
    pub mimetype: String,
}

/// The payload of a webhook message: body text and optional media.
pub struct WhatsappPayload {
    pub body: String,
    pub media: Option<WhatsappMedia>,
}

/// One inbound webhook message.
pub struct WhatsappMessage {
    pub payload: WhatsappPayload,
}

/// One worker's shift on one date. The natural key is
/// (date, planning, boff_id); the remaining fields are mutable on upsert.
pub struct Shift {
    pub boff_id: String,
    pub name: String,
    pub date: Date,
    pub planning: Planning,
    pub start: TimeOfDay,
    pub end: TimeOfDay,
    pub info: Option<String>,
}

/// The mathematical content of a `Shift`: the same fields with text as
/// character sequences.
pub struct ShiftView {
    pub boff_id: Seq<char>,
    pub name: Seq<char>,
    pub date: Date,
    pub planning: Planning,
    pub start: TimeOfDay,
    pub end: TimeOfDay,
    pub info: Option<Seq<char>>,
}

impl View for Shift {
    type V = ShiftView;

    open spec fn view(&self) -> ShiftView {
        ShiftView {
            boff_id: self.boff_id@,
            name: self.name@,
            date: self.date,
            planning: self.planning,
            start: self.start,
            end: self.end,
            info: if self.info is Some {
                Some(self.info->0@)
            } else {
                None
            },
        }
    }
}

/// Well-formedness of a shift record: its date and times are real.
pub open spec fn shift_valid(s: ShiftView) -> bool {
    date_valid(s.date) && time_valid(s.start) && time_valid(s.end)
}

/// Two records share the natural key.
pub open spec fn same_key(a: ShiftView, b: ShiftView) -> bool {
    a.date == b.date && a.planning == b.planning && a.boff_id == b.boff_id
}

/// "YYYY-MM-DD".
pub open spec fn spec_date_string(d: Date) -> Seq<char> {
    four_digits(d.year as int) + seq!['-'] + two_digits(d.month as int) + seq!['-'] + two_digits(
        d.day as int,
    )
}

/// The two-letter category code.
pub open spec fn planning_code(p: Planning) -> Seq<char> {
    match p {
        Planning::PO => seq!['P', 'O'],
        Planning::PA => seq!['P', 'A'],
    }
}

/// The two-letter weekday code, for an ISO weekday number 1..=7.
pub open spec fn day_code(w: int) -> Seq<char> {
    if w == 1 {
        seq!['M', 'A']
    } else if w == 2 {
        seq!['D', 'I']
    } else if w == 3 {
        seq!['W', 'O']
    } else if w == 4 {
        seq!['D', 'O']
    } else if w == 5 {
        seq!['V', 'R']
    } else if w == 6 {
        seq!['Z', 'A']
    } else {
        seq!['Z', 'O']
    }
}

/// The uid of a record: "YYYY-MM-DD-<category>-<worker>".
pub open spec fn spec_uid(s: ShiftView) -> Seq<char> {
    spec_date_string(s.date) + seq!['-'] + planning_code(s.planning) + seq!['-'] + s.boff_id
}

/// The event summary code: weekday code followed by category code.
pub open spec fn spec_code(s: ShiftView) -> Seq<char> {
    day_code(weekday(s.date)) + planning_code(s.planning)
}

impl Shift {
    /// The placeholder record for a future date: the configured worker,
    /// category A, the default 15:00-22:00 window, no name and no note.
    pub fn default(date: Date, boff_id: String) -> (r: Shift)
        ensures
            r.boff_id == boff_id,
            r.name@ == Seq::<char>::empty(),
            r.date == date,
            r.planning == Planning::PA,
            r.start.hour == 15 && r.start.minute == 0,
            r.end.hour == 22 && r.end.minute == 0,
            r.info is None,
    {
        Shift {
            boff_id,
            name: String::new(),
            date,
            planning: Planning::PA,
            start: TimeOfDay { hour: 15, minute: 0 },
            end: TimeOfDay { hour: 22, minute: 0 },
            info: None,
        }
    }

    /// The deterministic uid string of this record's natural key.
    pub fn uid(&self) -> (r: String)
        requires
            date_valid(self.date),
        ensures
            r@ == spec_uid(self@),
    {
        let mut s = String::new();
        push_four_digits(&mut s, self.date.year);
        s.append("-");
        push_two_digits(&mut s, self.date.month);
        s.append("-");
        push_two_digits(&mut s, self.date.day);
        s.append("-");
        match self.planning {
            Planning::PO => s.append("PO"),
            Planning::PA => s.append("PA"),
        }
        s.append("-");
        s.append(self.boff_id.as_str());
        proof {
            reveal_strlit("-");
            reveal_strlit("PO");
            reveal_strlit("PA");
            assert(s@ =~= spec_uid(self@));
        }
        s
    }

    /// The summary code shown on the calendar event.
    pub fn code(&self) -> (r: String)
        requires
            date_valid(self.date),
        ensures
            r@ == spec_code(self@),
    {
        let w = weekday_number(&self.date);
        let mut s = String::new();
        match w {
            1 => s.append("MA"),
            2 => s.append("DI"),
            3 => s.append("WO"),
            4 => s.append("DO"),
            5 => s.append("VR"),
            6 => s.append("ZA"),
            _ => s.append("ZO"),
        }
        match self.planning {
            Planning::PO => s.append("PO"),
            Planning::PA => s.append("PA"),
        }
        proof {
            reveal_strlit("MA");
            reveal_strlit("DI");
            reveal_strlit("WO");
            reveal_strlit("DO");
            reveal_strlit("VR");
            reveal_strlit("ZA");
            reveal_strlit("ZO");
            reveal_strlit("PO");
            reveal_strlit("PA");
            assert(s@ =~= spec_code(self@));
        }
        s
    }
}

/// Distinct valid dates render as distinct "YYYY-MM-DD" strings.
pub proof fn lemma_date_string_injective(a: Date, b: Date)
    requires
        date_valid(a),
        date_valid(b),
        a != b,
    ensures
        spec_date_string(a) != spec_date_string(b),
{
    if spec_date_string(a) == spec_date_string(b) {
        if a.year != b.year {
            lemma_four_digits_injective(a.year as int, b.year as int);
            let fa = four_digits(a.year as int);
            let fb = four_digits(b.year as int);
            assert(exists|i: int| 0 <= i < 4 && fa[i] != fb[i]) by {
                if fa[0] == fb[0] && fa[1] == fb[1] && fa[2] == fb[2] && fa[3] == fb[3] {
                    assert(fa =~= fb);
                }
            }
            let i = choose|i: int| 0 <= i < 4 && fa[i] != fb[i];
            assert(spec_date_string(a)[i] == fa[i]);
            assert(spec_date_string(b)[i] == fb[i]);
        } else if a.month != b.month {
            lemma_two_digits_injective(a.month as int, b.month as int);
            let ma = two_digits(a.month as int);
            let mb = two_digits(b.month as int);
            assert(exists|i: int| 0 <= i < 2 && ma[i] != mb[i]) by {
                if ma[0] == mb[0] && ma[1] == mb[1] {
                    assert(ma =~= mb);
                }
            }
            let i = choose|i: int| 0 <= i < 2 && ma[i] != mb[i];
            assert(spec_date_string(a)[5 + i] == ma[i]);
            assert(spec_date_string(b)[5 + i] == mb[i]);
        } else {
            lemma_two_digits_injective(a.day as int, b.day as int);
            let da = two_digits(a.day as int);
            let db = two_digits(b.day as int);
            assert(exists|i: int| 0 <= i < 2 && da[i] != db[i]) by {
                if da[0] == db[0] && da[1] == db[1] {
                    assert(da =~= db);
                }
            }
            let i = choose|i: int| 0 <= i < 2 && da[i] != db[i];
            assert(spec_date_string(a)[8 + i] == da[i]);
            assert(spec_date_string(b)[8 + i] == db[i]);
        }
    }
}

/// Records with different natural keys have different uids.
pub proof fn lemma_uid_injective(a: ShiftView, b: ShiftView)
    requires
        date_valid(a.date),
        date_valid(b.date),
        !same_key(a, b),
    ensures
        spec_uid(a) != spec_uid(b),
{
    if spec_uid(a) == spec_uid(b) {
        if a.date != b.date {
            lemma_date_string_injective(a.date, b.date);
            let da = spec_date_string(a.date);
            let db = spec_date_string(b.date);
            assert(exists|i: int| 0 <= i < 10 && da[i] != db[i]) by {
                if forall|i: int| 0 <= i < 10 ==> da[i] == db[i] {
                    assert(da =~= db);
                }
            }
            let i = choose|i: int| 0 <= i < 10 && da[i] != db[i];
            assert(spec_uid(a)[i] == da[i]);
            assert(spec_uid(b)[i] == db[i]);
        } else if a.planning != b.planning {
            assert(spec_uid(a)[12] == planning_code(a.planning)[1]);
            assert(spec_uid(b)[12] == planning_code(b.planning)[1]);
        } else {
            assert(spec_uid(a).len() == 14 + a.boff_id.len());
            assert(spec_uid(b).len() == 14 + b.boff_id.len());
            assert(a.boff_id.len() == b.boff_id.len());
            assert forall|i: int| 0 <= i < a.boff_id.len() implies a.boff_id[i]
                == b.boff_id[i] by {
                assert(spec_uid(a)[14 + i] == a.boff_id[i]);
                assert(spec_uid(b)[14 + i] == b.boff_id[i]);
            }
            assert(a.boff_id =~= b.boff_id);
        }
    }
}

} // verus!
