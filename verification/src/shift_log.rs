//! Guard shift-log actions: the events recorded in the observation log.

use vstd::prelude::*;

use crate::text::expect_lit;
use crate::text::lit_at;
use crate::text::scan_i64;
use crate::text::scan_i64_at;
use crate::text::str_eq;

verus! {

/// One logged action of a guard.
#[derive(Debug, Clone, Copy, PartialEq, Eq, Structural)]
pub enum Action {
    BeginShift { id: i64 },
    Asleep,
    Awake,
}

/// The error returned for a line that spells no known action.
#[derive(Debug, Clone, Copy, PartialEq, Eq, Structural)]
pub enum LogParseError {
    Unrecognized,
}

/// The guard number of a line of the exact form `Guard #<id> begins shift`.
pub open spec fn spec_parse_begin(s: Seq<char>) -> Option<int> {
    if !lit_at(s, 0, seq!['G', 'u', 'a', 'r', 'd', ' ', '#']) {
        Option::None
    } else {
        match scan_i64_at(s, 7) {
            Option::None => Option::None,
            Option::Some((id, p)) => if lit_at(
                s,
                p,
                seq![' ', 'b', 'e', 'g', 'i', 'n', 's', ' ', 's', 'h', 'i', 'f', 't'],
            ) && p + 13 == s.len() {
                Option::Some(id)
            } else {
                Option::None
            },
        }
    }
}

/// Parses a `Guard #<id> begins shift` line.
pub fn parse_begin(s: &str) -> (r: Result<Action, LogParseError>)
    ensures
        (r is Ok) <==> (spec_parse_begin(s@) is Some),
        r matches Ok(a) ==> spec_parse_begin(s@) matches Some(id) && a == (Action::BeginShift {
            id: id as i64,
        }),
        r matches Err(e) ==> e == LogParseError::Unrecognized,
{
    proof {
        reveal_strlit("Guard #");
        reveal_strlit(" begins shift");
        assert("Guard #"@ =~= seq!['G', 'u', 'a', 'r', 'd', ' ', '#']);
        assert(" begins shift"@ =~= seq![
            ' ',
            'b',
            'e',
            'g',
            'i',
            'n',
            's',
            ' ',
            's',
            'h',
            'i',
            'f',
            't',
        ]);
    }
    let p0 = match expect_lit(s, 0, "Guard #") {
        Some(p) => p,
        None => {
            return Err(LogParseError::Unrecognized);
        },
    };
    let (id, p1) = match scan_i64(s, p0) {
        Some(v) => v,
        None => {
            return Err(LogParseError::Unrecognized);
        },
    };
    let p2 = match expect_lit(s, p1, " begins shift") {
        Some(p) => p,
        None => {
            return Err(LogParseError::Unrecognized);
        },
    };
    if p2 != s.unicode_len() {
        return Err(LogParseError::Unrecognized);
    }
    Ok(Action::BeginShift { id })
}

/// Parses any logged action: a shift beginning, `falls asleep`, or
/// `wakes up`.
pub fn parse_action(s: &str) -> (r: Result<Action, LogParseError>)
    ensures
        (r is Ok) <==> (spec_parse_begin(s@) is Some || s@ == "falls asleep"@ || s@
            == "wakes up"@),
        spec_parse_begin(s@) matches Some(id) ==> r == Ok::<Action, LogParseError>(Action::BeginShift { id: id as i64 }),
        spec_parse_begin(s@) is None && s@ == "falls asleep"@ ==> r == Ok::<Action, LogParseError>(Action::Asleep),
        spec_parse_begin(s@) is None && s@ == "wakes up"@ ==> r == Ok::<Action, LogParseError>(Action::Awake),
        r matches Err(e) ==> e == LogParseError::Unrecognized,
{
    proof {
        reveal_strlit("falls asleep");
        reveal_strlit("wakes up");
    }
    match parse_begin(s) {
        Ok(action) => {
            return Ok(action);
        },
        Err(_) => {},
    }
    if str_eq(s, "falls asleep") {
        return Ok(Action::Asleep);
    }
    if str_eq(s, "wakes up") {
        return Ok(Action::Awake);
    }
    Err(LogParseError::Unrecognized)
}

} // verus!
