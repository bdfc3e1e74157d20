//! Recurring availability calendars.
//!
//! A calendar is written as one or more blocks of two lines,
//!
//! ```text
//! DTSTART:<YYYYMMDDTHHMMSSZ>;DURATION:<ISO 8601 duration>
//! RRULE:<iCalendar recurrence rule>
//! ```
//!
//! and is available at an instant when some occurrence of some block
//! covers it: an occurrence starting at `s` covers `[s, s + duration)`.

use vstd::prelude::*;
use chrono::TimeZone;
use crate::error::RouterError;
use vstd::string::{is_ascii, StringSliceAdditionalSpecFns};

verus! {

/// Earliest instant rrule is asked about: -9999-01-01T00:00:00Z, within
/// rrule's years -10000 to 10000.
pub const TIME_MIN: i64 = -377_705_116_800;

/// Latest instant rrule is asked about: 9999-12-31T23:59:59Z, the last
/// instant a `DTSTART` of four-digit year can reach.
pub const TIME_MAX: i64 = 253_402_300_799;

/// Longest duration a block may have, in seconds (about 31 years).
pub const MAX_DURATION: i64 = 1_000_000_000;

/// Whether rrule accepts this text, a `DTSTART` line in UTC followed by an
/// `RRULE` line.
pub uninterp spec fn rrule_accepts(text: Seq<u8>) -> bool;

/// The starts, in seconds, of the occurrences of the rule set this text
/// describes that fall within `[after, before]`, as rrule lists them: at
/// most the first 65,535, and none past the point where rrule's iteration
/// gives up (after 100,000 steps without an occurrence).
pub uninterp spec fn rrule_starts(text: Seq<u8>, after: int, before: int) -> Seq<i64>;

/// Relies on rrule's `RRuleSet::from_str`, which accepts or refuses the
/// text, and `RRuleSet::all` after `after` and `before`, which lists the
/// occurrences within `[after, before]` (both ends included), at most the
/// first 65,535 of them. A `DTSTART`
/// in UTC makes the answer independent of the machine's time zone.
#[verifier::external_body]
fn recurrences(text: &Vec<u8>, after: i64, before: i64) -> (r: Option<Vec<i64>>)
    requires
        utc_rule_text(text@),
        TIME_MIN <= after <= before <= TIME_MAX,
    ensures
        r is Some <==> rrule_accepts(text@),
        r matches Some(v) ==> v@ == rrule_starts(text@, after as int, before as int),
        r matches Some(v) ==> forall|k: int| 0 <= k < v@.len() ==> after <= #[trigger] v@[k] <= before,
{
    let text: String = text.iter().map(|b| *b as char).collect();
    let set: rrule::RRuleSet = text.parse().ok()?;
    let after = rrule::Tz::UTC.timestamp_opt(after, 0).unwrap();
    let before = rrule::Tz::UTC.timestamp_opt(before, 0).unwrap();
    let dates = set.after(after).before(before).all(u16::MAX).dates;
    Some(dates.iter().map(|d| d.timestamp()).collect())
}

pub const NEWLINE: u8 = 10;
pub const DIGIT_0: u8 = 48;
pub const DIGIT_9: u8 = 57;
pub const LETTER_D: u8 = 68;
pub const LETTER_H: u8 = 72;
pub const LETTER_M: u8 = 77;
pub const LETTER_P: u8 = 80;
pub const LETTER_S: u8 = 83;
pub const LETTER_T: u8 = 84;
pub const LETTER_W: u8 = 87;
pub const LETTER_Z: u8 = 90;

/// `DTSTART:` in ASCII.
pub open spec fn dtstart_tag() -> Seq<u8> {
    seq![68u8, 84, 83, 84, 65, 82, 84, 58]
}

/// `;DURATION:` in ASCII.
pub open spec fn duration_tag() -> Seq<u8> {
    seq![59u8, 68, 85, 82, 65, 84, 73, 79, 78, 58]
}

/// `RRULE:` in ASCII.
pub open spec fn rrule_tag() -> Seq<u8> {
    seq![82u8, 82, 85, 76, 69, 58]
}

pub open spec fn is_digit(c: u8) -> bool {
    DIGIT_0 <= c <= DIGIT_9
}

/// A UTC timestamp `YYYYMMDDTHHMMSSZ`.
pub open spec fn utc_stamp(s: Seq<u8>) -> bool {
    &&& s.len() == 16
    &&& forall|k: int| 0 <= k < 8 ==> is_digit(#[trigger] s[k])
    &&& s[8] == LETTER_T
    &&& forall|k: int| 9 <= k < 15 ==> is_digit(#[trigger] s[k])
    &&& s[15] == LETTER_Z
}

/// A rule text as handed to rrule: `DTSTART:<UTC stamp>`, a newline, then
/// `RRULE:` and a rule without newlines.
pub open spec fn utc_rule_text(t: Seq<u8>) -> bool {
    &&& t.len() >= 31
    &&& t.subrange(0, 8) == dtstart_tag()
    &&& utc_stamp(t.subrange(8, 24))
    &&& t[24] == NEWLINE
    &&& t.subrange(25, 31) == rrule_tag()
    &&& forall|k: int| 31 <= k < t.len() ==> #[trigger] t[k] != NEWLINE
}

// ---------------------------------------------------------------------
// ISO 8601 durations
// ---------------------------------------------------------------------

/// Where a duration is read: the digits of the component being read, in
/// the date or the time part, and the seconds of the components read.
pub struct DurationState {
    pub total: i64,
    pub number: i64,
    pub has_digits: bool,
    pub in_time: bool,
    pub components: u8,
}

/// Seconds in one unit of a component letter, in the date part
/// (`W`, `D`) or the time part (`H`, `M`, `S`); 0 for any other letter.
pub open spec fn unit_seconds(c: u8, in_time: bool) -> int {
    if !in_time && c == LETTER_W {
        604800
    } else if !in_time && c == LETTER_D {
        86400
    } else if in_time && c == LETTER_H {
        3600
    } else if in_time && c == LETTER_M {
        60
    } else if in_time && c == LETTER_S {
        1
    } else {
        0
    }
}

/// One step of reading a duration after its leading `P`; `None` rejects.
pub open spec fn duration_step(st: DurationState, c: u8) -> Option<DurationState> {
    if is_digit(c) {
        let n = st.number * 10 + (c - DIGIT_0);
        if n > MAX_DURATION {
            None
        } else {
            Some(DurationState { number: n as i64, has_digits: true, ..st })
        }
    } else if c == LETTER_T {
        if st.in_time || st.has_digits {
            None
        } else {
            Some(DurationState { in_time: true, ..st })
        }
    } else if unit_seconds(c, st.in_time) > 0 && st.has_digits {
        let t = st.total + st.number * unit_seconds(c, st.in_time);
        if t > MAX_DURATION || st.components >= 8 {
            None
        } else {
            Some(DurationState { total: t as i64, number: 0, has_digits: false, components: (st.components + 1) as u8, ..st })
        }
    } else {
        None
    }
}

/// Reads all of `s` from `st`.
pub open spec fn duration_run(st: DurationState, s: Seq<u8>) -> Option<DurationState>
    decreases s.len(),
{
    if s.len() == 0 {
        Some(st)
    } else {
        match duration_run(st, s.drop_last()) {
            None => None,
            Some(mid) => duration_step(mid, s.last()),
        }
    }
}

pub open spec fn duration_start() -> DurationState {
    DurationState { total: 0, number: 0, has_digits: false, in_time: false, components: 0 }
}

/// The length in seconds of an ISO 8601 duration such as `PT14H`, `P1D`
/// or `P2W`: a `P`, then components of digits and a unit (`W`, `D`; after a
/// `T`, `H`, `M`, `S`), at least one, none left unfinished, and a total of
/// at most [`MAX_DURATION`]. Years and months, whose length varies, are
/// refused.
pub open spec fn duration_seconds(s: Seq<u8>) -> Option<int> {
    if s.len() < 2 || s[0] != LETTER_P {
        None
    } else {
        match duration_run(duration_start(), s.drop_first()) {
            Some(st) => if st.components > 0 && !st.has_digits {
                Some(st.total as int)
            } else {
                None
            },
            None => None,
        }
    }
}

fn duration_step_exec(st: &DurationState, c: u8) -> (r: Option<DurationState>)
    requires
        0 <= st.number <= MAX_DURATION,
        0 <= st.total <= MAX_DURATION,
    ensures
        r == duration_step(*st, c),
        r matches Some(n) ==> 0 <= n.number <= MAX_DURATION && 0 <= n.total <= MAX_DURATION,
{
    if DIGIT_0 <= c && c <= DIGIT_9 {
        let n = st.number * 10 + (c - DIGIT_0) as i64;
        if n > MAX_DURATION {
            None
        } else {
            Some(DurationState { total: st.total, number: n, has_digits: true, in_time: st.in_time, components: st.components })
        }
    } else if c == LETTER_T {
        if st.in_time || st.has_digits {
            None
        } else {
            Some(DurationState { total: st.total, number: st.number, has_digits: st.has_digits, in_time: true, components: st.components })
        }
    } else {
        let unit: i64 = if !st.in_time && c == LETTER_W {
            604800
        } else if !st.in_time && c == LETTER_D {
            86400
        } else if st.in_time && c == LETTER_H {
            3600
        } else if st.in_time && c == LETTER_M {
            60
        } else if st.in_time && c == LETTER_S {
            1
        } else {
            0
        };
        if unit > 0 && st.has_digits {
            proof {
                assert(st.number * unit <= MAX_DURATION * 604800) by (nonlinear_arith)
                    requires 0 <= st.number <= MAX_DURATION, 0 < unit <= 604800;
                assert(st.number * unit >= 0) by (nonlinear_arith)
                    requires 0 <= st.number, 0 < unit;
            }
            let t = st.total + st.number * unit;
            if t > MAX_DURATION || st.components >= 8 {
                None
            } else {
                Some(DurationState { total: t, number: 0, has_digits: false, in_time: st.in_time, components: st.components + 1 })
            }
        } else {
            None
        }
    }
}

/// Reads an ISO 8601 duration; see [`duration_seconds`].
pub fn parse_duration(s: &[u8]) -> (r: Option<i64>)
    ensures
        r matches Some(v) ==> duration_seconds(s@) == Some(v as int) && 0 <= v <= MAX_DURATION,
        r is None ==> duration_seconds(s@) is None,
{
    if s.len() < 2 || s[0] != LETTER_P {
        return None;
    }
    let mut st = DurationState { total: 0, number: 0, has_digits: false, in_time: false, components: 0 };
    let mut i: usize = 1;
    while i < s.len()
        invariant
            1 <= i <= s@.len(),
            s@.len() >= 2,
            duration_run(duration_start(), s@.subrange(1, i as int)) == Some(st),
            0 <= st.number <= MAX_DURATION,
            0 <= st.total <= MAX_DURATION,
        decreases s@.len() - i,
    {
        let ghost prev = s@.subrange(1, i as int);
        let next = duration_step_exec(&st, s[i]);
        proof {
            let cur = s@.subrange(1, i as int + 1);
            assert(cur.drop_last() =~= prev);
            assert(cur.last() == s@[i as int]);
        }
        match next {
            Some(n) => {
                st = n;
            },
            None => {
                proof {
                    assert(duration_run(duration_start(), s@.subrange(1, i as int + 1)) is None);
                    assert(s@.subrange(1, i as int + 1) =~= s@.drop_first().subrange(0, i as int));
                    lemma_duration_run_stuck(s@.subrange(1, i as int + 1), s@.drop_first());
                    assert(s@.drop_first() =~= s@.subrange(1, s@.len() as int));
                }
                return None;
            },
        }
        i = i + 1;
    }
    proof {
        assert(s@.drop_first() =~= s@.subrange(1, i as int));
    }
    if st.components > 0 && !st.has_digits {
        Some(st.total)
    } else {
        None
    }
}

/// Once reading fails, it fails on every extension.
proof fn lemma_duration_run_stuck(a: Seq<u8>, b: Seq<u8>)
    requires
        a.len() <= b.len(),
        a == b.subrange(0, a.len() as int),
        duration_run(duration_start(), a) is None,
    ensures
        duration_run(duration_start(), b) is None,
    decreases b.len() - a.len(),
{
    if a.len() < b.len() {
        assert(a =~= b.drop_last().subrange(0, a.len() as int));
        lemma_duration_run_stuck(a, b.drop_last());
    } else {
        assert(a =~= b);
    }
}

// ---------------------------------------------------------------------
// Calendar text
// ---------------------------------------------------------------------

/// The lines of `b`, split at each newline.
pub open spec fn fold_lines(b: Seq<u8>) -> Seq<Seq<u8>>
    decreases b.len(),
{
    if b.len() == 0 {
        seq![Seq::<u8>::empty()]
    } else {
        let prev = fold_lines(b.drop_last());
        if b.last() == NEWLINE {
            prev.push(Seq::<u8>::empty())
        } else {
            prev.update(prev.len() - 1, prev.last().push(b.last()))
        }
    }
}

/// The lines of a calendar text; a final newline ends the last line.
pub open spec fn calendar_lines(b: Seq<u8>) -> Seq<Seq<u8>> {
    if b.len() == 0 {
        Seq::empty()
    } else {
        let l = fold_lines(b);
        if l.last().len() == 0 { l.drop_last() } else { l }
    }
}

/// `DTSTART:<UTC stamp>;DURATION:<duration>`.
pub open spec fn header_ok(h: Seq<u8>) -> bool {
    &&& h.len() >= 34
    &&& h.subrange(0, 8) == dtstart_tag()
    &&& utc_stamp(h.subrange(8, 24))
    &&& h.subrange(24, 34) == duration_tag()
    &&& duration_seconds(h.subrange(34, h.len() as int)) is Some
}

/// `RRULE:` and a rule that is not empty.
pub open spec fn rule_line_ok(l: Seq<u8>) -> bool {
    l.len() > 6 && l.subrange(0, 6) == rrule_tag()
}

/// One block of a calendar: the rule text handed to rrule and the length
/// of each occurrence in seconds.
pub struct EventView {
    pub rule: Seq<u8>,
    pub duration: int,
}

pub open spec fn event_of(h: Seq<u8>, l: Seq<u8>) -> EventView {
    EventView {
        rule: dtstart_tag() + h.subrange(8, 24) + seq![NEWLINE] + l,
        duration: duration_seconds(h.subrange(34, h.len() as int))->0,
    }
}

/// The lines come in pairs of a header and a rule line.
pub open spec fn blocks_ok(l: Seq<Seq<u8>>) -> bool {
    l.len() % 2 == 0 && forall|k: int| 0 <= k < l.len() / 2 ==> header_ok(#[trigger] l[2 * k]) && rule_line_ok(l[2 * k + 1])
}

/// The blocks a calendar text describes, or `None` when it is malformed.
pub open spec fn calendar_spec(b: Seq<u8>) -> Option<Seq<EventView>> {
    let l = calendar_lines(b);
    if blocks_ok(l) {
        Some(Seq::new((l.len() / 2) as nat, |k: int| event_of(l[2 * k], l[2 * k + 1])))
    } else {
        None
    }
}

/// The occurrences of one block that may meet `[a, b)`, as intervals.
/// Only occurrences starting within `[TIME_MIN, TIME_MAX]` are asked for.
pub open spec fn event_intervals(e: EventView, a: int, b: int) -> Seq<(i64, i64)> {
    let lo = if a - e.duration < TIME_MIN { TIME_MIN as int } else { a - e.duration };
    let hi = if b > TIME_MAX { TIME_MAX as int } else { b };
    if lo > hi {
        Seq::empty()
    } else {
        rrule_starts(e.rule, lo, hi).map_values(|s: i64| (s, (s + e.duration) as i64))
    }
}

/// The occurrences of all blocks that may meet `[a, b)`.
pub open spec fn calendar_intervals(evs: Seq<EventView>, a: int, b: int) -> Seq<(i64, i64)>
    decreases evs.len(),
{
    if evs.len() == 0 {
        Seq::empty()
    } else {
        calendar_intervals(evs.drop_last(), a, b) + event_intervals(evs.last(), a, b)
    }
}

/// The instant `t` lies in one of the half-open intervals.
pub open spec fn covered_at(ivs: Seq<(i64, i64)>, t: int) -> bool {
    exists|k: int| 0 <= k < ivs.len() && (#[trigger] ivs[k]).0 <= t < ivs[k].1
}

/// Every instant of `[a, b)` lies in one of the half-open intervals.
pub open spec fn covers(ivs: Seq<(i64, i64)>, a: int, b: int) -> bool {
    forall|t: int| a <= t < b ==> #[trigger] covered_at(ivs, t)
}

/// The calendar is available over `[a, b)`: it has no blocks, which places
/// no restriction, or the occurrences rrule lists for the window cover the
/// interval. rrule lists at most 65,535 occurrences per block and window
/// (see [`rrule_starts`]), so over a long window of a frequent rule those
/// past the cap do not count and the answer can be false.
pub open spec fn available(evs: Seq<EventView>, a: int, b: int) -> bool {
    evs.len() == 0 || covers(calendar_intervals(evs, a, b), a, b)
}

/// A parsed calendar.
pub struct Calendar {
    events: Vec<RecurrentEvent>,
}

impl Calendar {
    #[verifier::type_invariant]
    spec fn inv(&self) -> bool {
        events_wf(self@)
    }
}

/// One block: its rule text and the length of each occurrence in seconds.
pub struct RecurrentEvent {
    rule: Vec<u8>,
    duration: i64,
}

impl View for Calendar {
    type V = Seq<EventView>;

    closed spec fn view(&self) -> Seq<EventView> {
        self.events@.map_values(|e: RecurrentEvent| EventView { rule: e.rule@, duration: e.duration as int })
    }
}

/// Every block's rule is a UTC rule text that rrule accepts, and its
/// duration is within bounds.
pub open spec fn events_wf(evs: Seq<EventView>) -> bool {
    forall|k: int| 0 <= k < evs.len() ==> {
        &&& utc_rule_text(#[trigger] evs[k].rule)
        &&& rrule_accepts(evs[k].rule)
        &&& 0 <= evs[k].duration <= MAX_DURATION
    }
}

/// The views of a list of byte vectors.
pub open spec fn byte_views(v: Seq<Vec<u8>>) -> Seq<Seq<u8>> {
    v.map_values(|x: Vec<u8>| x@)
}

proof fn lemma_fold_lines_shape(b: Seq<u8>)
    ensures
        fold_lines(b).len() >= 1,
        forall|k: int, j: int| 0 <= k < fold_lines(b).len() && 0 <= j < fold_lines(b)[k].len() ==> #[trigger] fold_lines(b)[k][j]
            != NEWLINE,
    decreases b.len(),
{
    if b.len() > 0 {
        lemma_fold_lines_shape(b.drop_last());
        let prev = fold_lines(b.drop_last());
        let l = fold_lines(b);
        if b.last() != NEWLINE {
            assert forall|k: int, j: int| 0 <= k < l.len() && 0 <= j < l[k].len() implies #[trigger] l[k][j] != NEWLINE by {
                if k < prev.len() - 1 {
                    assert(l[k] == prev[k]);
                } else if j < prev[k].len() {
                    assert(l[k][j] == prev[k][j]);
                }
            }
        } else {
            assert forall|k: int, j: int| 0 <= k < l.len() && 0 <= j < l[k].len() implies #[trigger] l[k][j] != NEWLINE by {
                assert(k < prev.len());
                assert(l[k] == prev[k]);
            }
        }
    }
}

/// Splits bytes into lines at each newline.
fn split_lines(b: &Vec<u8>) -> (r: Vec<Vec<u8>>)
    ensures
        byte_views(r@) == fold_lines(b@),
{
    let mut lines: Vec<Vec<u8>> = Vec::new();
    let mut cur: Vec<u8> = Vec::new();
    let mut i: usize = 0;
    while i < b.len()
        invariant
            0 <= i <= b@.len(),
            byte_views(lines@).push(cur@) == fold_lines(b@.subrange(0, i as int)),
        decreases b@.len() - i,
    {
        let ghost before = byte_views(lines@).push(cur@);
        proof {
            let p = b@.subrange(0, i as int + 1);
            assert(p.drop_last() =~= b@.subrange(0, i as int));
            assert(p.last() == b@[i as int]);
        }
        if b[i] == NEWLINE {
            let done = cur;
            lines.push(done);
            cur = Vec::new();
            proof {
                assert(byte_views(lines@) =~= before);
                assert(byte_views(lines@).push(cur@) =~= before.push(Seq::<u8>::empty()));
            }
        } else {
            cur.push(b[i]);
            proof {
                assert(byte_views(lines@).push(cur@) =~= before.update(before.len() - 1, before.last().push(b@[i as int])));
            }
        }
        i = i + 1;
    }
    proof {
        assert(b@.subrange(0, b@.len() as int) =~= b@);
    }
    lines.push(cur);
    proof {
        assert(byte_views(lines@) =~= fold_lines(b@));
    }
    lines
}

/// `v` holds `pat` from position `off` on.
fn matches_at(v: &Vec<u8>, off: usize, pat: &Vec<u8>) -> (r: bool)
    ensures
        r == (off + pat@.len() <= v@.len() && v@.subrange(off as int, off + pat@.len()) == pat@),
{
    if off > v.len() || pat.len() > v.len() - off {
        return false;
    }
    let vl = v.len();
    let mut k: usize = 0;
    while k < pat.len()
        invariant
            vl == v@.len(),
            off + pat@.len() <= v@.len(),
            0 <= k <= pat@.len(),
            forall|j: int| 0 <= j < k ==> v@[off + j] == pat@[j],
        decreases pat@.len() - k,
    {
        if v[off + k] != pat[k] {
            proof {
                assert(v@.subrange(off as int, off + pat@.len())[k as int] != pat@[k as int]);
            }
            return false;
        }
        k = k + 1;
    }
    proof {
        assert(v@.subrange(off as int, off + pat@.len()) =~= pat@);
    }
    true
}

/// The bytes of `v` from `lo` to `hi`.
fn copy_range(v: &Vec<u8>, lo: usize, hi: usize) -> (r: Vec<u8>)
    requires
        lo <= hi <= v@.len(),
    ensures
        r@ == v@.subrange(lo as int, hi as int),
{
    let mut out: Vec<u8> = Vec::new();
    let mut k: usize = lo;
    while k < hi
        invariant
            lo <= k <= hi,
            hi <= v@.len(),
            out@ == v@.subrange(lo as int, k as int),
        decreases hi - k,
    {
        out.push(v[k]);
        k = k + 1;
        proof {
            assert(out@ =~= v@.subrange(lo as int, k as int));
        }
    }
    out
}

fn is_utc_stamp_at(v: &Vec<u8>, off: usize) -> (r: bool)
    requires
        off + 16 <= v@.len(),
    ensures
        r == utc_stamp(v@.subrange(off as int, off + 16)),
{
    let ghost s = v@.subrange(off as int, off + 16);
    let vl = v.len();
    let mut k: usize = 0;
    while k < 16
        invariant
            vl == v@.len(),
            off + 16 <= v@.len(),
            s == v@.subrange(off as int, off + 16),
            0 <= k <= 16,
            forall|j: int| 0 <= j < k ==> (if j == 8 { s[j] == LETTER_T } else if j == 15 { s[j] == LETTER_Z } else { is_digit(s[j]) }),
        decreases 16 - k,
    {
        let c = v[off + k];
        let ok = if k == 8 {
            c == LETTER_T
        } else if k == 15 {
            c == LETTER_Z
        } else {
            DIGIT_0 <= c && c <= DIGIT_9
        };
        if !ok {
            proof {
                assert(s[k as int] == c);
            }
            return false;
        }
        k = k + 1;
    }
    proof {
        assert forall|j: int| 0 <= j < 8 implies is_digit(#[trigger] s[j]) by {}
        assert forall|j: int| 9 <= j < 15 implies is_digit(#[trigger] s[j]) by {}
    }
    true
}

fn dtstart_tag_bytes() -> (r: Vec<u8>)
    ensures
        r@ == dtstart_tag(),
{
    let r = vec![68u8, 84, 83, 84, 65, 82, 84, 58];
    proof {
        assert(r@ =~= dtstart_tag());
    }
    r
}

fn duration_tag_bytes() -> (r: Vec<u8>)
    ensures
        r@ == duration_tag(),
{
    let r = vec![59u8, 68, 85, 82, 65, 84, 73, 79, 78, 58];
    proof {
        assert(r@ =~= duration_tag());
    }
    r
}

fn rrule_tag_bytes() -> (r: Vec<u8>)
    ensures
        r@ == rrule_tag(),
{
    let r = vec![82u8, 82, 85, 76, 69, 58];
    proof {
        assert(r@ =~= rrule_tag());
    }
    r
}

fn push_all(dst: &mut Vec<u8>, src: &Vec<u8>)
    ensures
        final(dst)@ == old(dst)@ + src@,
{
    let mut k: usize = 0;
    while k < src.len()
        invariant
            0 <= k <= src@.len(),
            dst@ == old(dst)@ + src@.subrange(0, k as int),
        decreases src@.len() - k,
    {
        dst.push(src[k]);
        k = k + 1;
        proof {
            assert(dst@ =~= old(dst)@ + src@.subrange(0, k as int));
        }
    }
    proof {
        assert(src@.subrange(0, src@.len() as int) =~= src@);
    }
}

/// The number of lines of a calendar text, given its split lines.
proof fn lemma_calendar_lines(b: Seq<u8>, lines: Seq<Seq<u8>>)
    requires
        lines == fold_lines(b),
    ensures
        b.len() == 0 ==> calendar_lines(b).len() == 0,
        b.len() > 0 && lines.last().len() == 0 ==> calendar_lines(b) == lines.drop_last(),
        b.len() > 0 && lines.last().len() != 0 ==> calendar_lines(b) == lines,
{
}

impl Calendar {
    /// The calendar with no blocks, which places no restriction.
    pub fn always_available() -> (r: Calendar)
        ensures
            r@.len() == 0,
    {
        let r = Calendar { events: Vec::new() };
        proof {
            assert(r@ =~= Seq::<EventView>::empty());
        }
        r
    }

    /// Parses a calendar text: it succeeds exactly when the text is ASCII,
    /// well formed, and rrule accepts the rule of every block.
    pub fn parse(text: &str) -> (r: Result<Calendar, RouterError>)
        ensures
            r is Ok <==> is_ascii(text) && calendar_spec(text.spec_bytes()) is Some && forall|k: int|
                0 <= k < calendar_spec(text.spec_bytes())->0.len() ==> rrule_accepts(
                    #[trigger] calendar_spec(text.spec_bytes())->0[k].rule,
                ),
            r matches Ok(c) ==> c@ == calendar_spec(text.spec_bytes())->0,
            r matches Err(e) ==> e == RouterError::InvalidArgument,
    {
        if !text.is_ascii() {
            return Err(RouterError::InvalidArgument);
        }
        let s = text.as_bytes();
        let mut b: Vec<u8> = Vec::new();
        let mut i: usize = 0;
        while i < s.len()
            invariant
                0 <= i <= s@.len(),
                b@ == s@.subrange(0, i as int),
            decreases s@.len() - i,
        {
            b.push(s[i]);
            i = i + 1;
            proof {
                assert(b@ =~= s@.subrange(0, i as int));
            }
        }
        proof {
            assert(b@ =~= s@);
        }
        Calendar::parse_bytes(&b)
    }

    /// Parses the bytes of a calendar text; see [`Calendar::parse`].
    pub fn parse_bytes(b: &Vec<u8>) -> (r: Result<Calendar, RouterError>)
        ensures
            r is Ok <==> calendar_spec(b@) is Some && forall|k: int| 0 <= k < calendar_spec(b@)->0.len() ==> rrule_accepts(
                #[trigger] calendar_spec(b@)->0[k].rule,
            ),
            r matches Ok(c) ==> c@ == calendar_spec(b@)->0,
            r matches Err(e) ==> e == RouterError::InvalidArgument,
    {
        let lines = split_lines(b);
        proof {
            lemma_fold_lines_shape(b@);
            lemma_calendar_lines(b@, byte_views(lines@));
        }
        let n: usize = if b.len() == 0 {
            0
        } else if lines[lines.len() - 1].len() == 0 {
            lines.len() - 1
        } else {
            lines.len()
        };
        let ghost l = calendar_lines(b@);
        proof {
            assert(l.len() == n);
            assert forall|k: int| 0 <= k < n implies #[trigger] l[k] == lines@[k]@ by {}
        }
        if n % 2 != 0 {
            return Err(RouterError::InvalidArgument);
        }
        let dtstart = dtstart_tag_bytes();
        let duration = duration_tag_bytes();
        let rrule = rrule_tag_bytes();
        let mut events: Vec<RecurrentEvent> = Vec::new();
        let mut k: usize = 0;
        while k < n / 2
            invariant
                l == calendar_lines(b@),
                l.len() == n,
                n % 2 == 0,
                n <= lines@.len(),
                forall|j: int| 0 <= j < n ==> #[trigger] l[j] == lines@[j]@,
                forall|j: int, i: int| 0 <= j < n && 0 <= i < l[j].len() ==> #[trigger] l[j][i] != NEWLINE,
                dtstart@ == dtstart_tag(),
                duration@ == duration_tag(),
                rrule@ == rrule_tag(),
                0 <= k <= n / 2,
                forall|j: int| 0 <= j < k ==> header_ok(#[trigger] l[2 * j]) && rule_line_ok(l[2 * j + 1]),
                events@.len() == k,
                forall|j: int| 0 <= j < k ==> {
                    &&& (#[trigger] events@[j]).rule@ == event_of(l[2 * j], l[2 * j + 1]).rule
                    &&& events@[j].duration == event_of(l[2 * j], l[2 * j + 1]).duration
                    &&& utc_rule_text(events@[j].rule@)
                    &&& rrule_accepts(events@[j].rule@)
                    &&& 0 <= events@[j].duration <= MAX_DURATION
                },
            decreases n / 2 - k,
        {
            let h = &lines[2 * k];
            let rl = &lines[2 * k + 1];
            proof {
                assert(l[2 * k as int] == h@);
                assert(l[2 * k as int + 1] == rl@);
            }
            if h.len() < 34 || !matches_at(h, 0, &dtstart) || !is_utc_stamp_at(h, 8) || !matches_at(h, 24, &duration) {
                proof {
                    assert(!header_ok(l[2 * k as int]));
                    assert(calendar_spec(b@) is None);
                }
                return Err(RouterError::InvalidArgument);
            }
            let tail = copy_range(h, 34, h.len());
            let secs = match parse_duration(tail.as_slice()) {
                Some(d) => d,
                None => {
                    proof {
                        assert(!header_ok(l[2 * k as int]));
                        assert(calendar_spec(b@) is None);
                    }
                    return Err(RouterError::InvalidArgument);
                },
            };
            if rl.len() <= 6 || !matches_at(rl, 0, &rrule) {
                proof {
                    assert(!rule_line_ok(l[2 * k as int + 1]));
                    assert(calendar_spec(b@) is None);
                }
                return Err(RouterError::InvalidArgument);
            }
            let mut text: Vec<u8> = Vec::new();
            push_all(&mut text, &dtstart);
            let stamp = copy_range(h, 8, 24);
            push_all(&mut text, &stamp);
            text.push(NEWLINE);
            push_all(&mut text, rl);
            proof {
                let ev = event_of(l[2 * k as int], l[2 * k as int + 1]);
                assert(text@ =~= ev.rule);
                assert(text@.subrange(0, 8) =~= dtstart_tag());
                assert(text@.subrange(8, 24) =~= h@.subrange(8, 24));
                assert(text@.subrange(25, 31) =~= rl@.subrange(0, 6));
                assert forall|i: int| 31 <= i < text@.len() implies #[trigger] text@[i] != NEWLINE by {
                    assert(text@[i] == rl@[i - 25]);
                    assert(l[2 * k as int + 1][i - 25] != NEWLINE);
                }
                assert(utc_rule_text(text@));
            }
            match recurrences(&text, TIME_MIN, TIME_MIN) {
                Some(_) => {},
                None => {
                    proof {
                        if calendar_spec(b@) is Some {
                            let evs = calendar_spec(b@)->0;
                            assert(evs.len() == n / 2);
                            assert(evs[k as int] == event_of(l[2 * k as int], l[2 * k as int + 1]));
                            assert(!rrule_accepts(evs[k as int].rule));
                        }
                    }
                    return Err(RouterError::InvalidArgument);
                },
            }
            events.push(RecurrentEvent { rule: text, duration: secs });
            k = k + 1;
        }
        let c = Calendar { events };
        proof {
            assert(k == n / 2);
            assert(l.len() % 2 == 0);
            assert(forall|j: int| 0 <= j < l.len() / 2 ==> header_ok(#[trigger] l[2 * j]) && rule_line_ok(l[2 * j + 1]));
            assert(l == calendar_lines(b@));
            assert(blocks_ok(l));
            assert(calendar_spec(b@) is Some);
            let spec_evs = calendar_spec(b@)->0;
            assert(spec_evs.len() == n / 2);
            assert forall|j: int| 0 <= j < n / 2 implies #[trigger] c@[j] == spec_evs[j] by {
                assert(c@[j] == EventView { rule: events@[j].rule@, duration: events@[j].duration as int });
            }
            assert(c@ =~= spec_evs);
            assert forall|j: int| 0 <= j < spec_evs.len() implies rrule_accepts(#[trigger] spec_evs[j].rule) by {
                assert(c@[j] == spec_evs[j]);
            }
        }
        Ok(c)
    }

    /// Whether the calendar is available over the whole of `[a, b)`, as
    /// [`available`] says: only the occurrences rrule lists count, at most
    /// 65,535 per block.
    pub fn is_available_between(&self, a: i64, b: i64) -> (r: bool)
        ensures
            r == available(self@, a as int, b as int),
    {
        proof {
            use_type_invariant(self);
        }
        if self.events.len() == 0 {
            return true;
        }
        let mut ivs: Vec<(i64, i64)> = Vec::new();
        let mut k: usize = 0;
        while k < self.events.len()
            invariant
                0 <= k <= self@.len(),
                self@.len() == self.events@.len(),
                events_wf(self@),
                ivs@ == calendar_intervals(self@.subrange(0, k as int), a as int, b as int),
            decreases self@.len() - k,
        {
            let e = &self.events[k];
            proof {
                assert(self@[k as int].rule == e.rule@);
                assert(self@[k as int].duration == e.duration);
            }
            let lo: i64 = if a < TIME_MIN + e.duration { TIME_MIN } else { a - e.duration };
            let hi: i64 = if b > TIME_MAX { TIME_MAX } else { b };
            let starts = if lo > hi {
                Vec::new()
            } else {
                match recurrences(&e.rule, lo, hi) {
                    Some(v) => v,
                    None => {
                        return false;
                    },
                }
            };
            let ghost base = ivs@;
            let mut j: usize = 0;
            while j < starts.len()
                invariant
                    0 <= j <= starts@.len(),
                    0 <= e.duration <= MAX_DURATION,
                    forall|i: int| 0 <= i < starts@.len() ==> lo <= #[trigger] starts@[i] <= hi,
                    hi <= TIME_MAX,
                    ivs@ == base + starts@.subrange(0, j as int).map_values(|s: i64| (s, (s + e.duration) as i64)),
                decreases starts@.len() - j,
            {
                let s = starts[j];
                ivs.push((s, s + e.duration));
                j = j + 1;
                proof {
                    assert(ivs@ =~= base + starts@.subrange(0, j as int).map_values(|s: i64| (s, (s + e.duration) as i64)));
                }
            }
            proof {
                let done = self@.subrange(0, k as int + 1);
                assert(done.drop_last() =~= self@.subrange(0, k as int));
                assert(done.last() == self@[k as int]);
                assert(starts@.subrange(0, starts@.len() as int) =~= starts@);
                assert(ivs@ =~= calendar_intervals(done, a as int, b as int));
            }
            k = k + 1;
        }
        proof {
            assert(self@.subrange(0, self@.len() as int) =~= self@);
        }
        intervals_cover(&ivs, a, b)
    }
}

/// Whether every instant of `[a, b)` lies in one of the half-open
/// intervals.
pub fn intervals_cover(ivs: &Vec<(i64, i64)>, a: i64, b: i64) -> (r: bool)
    ensures
        r == covers(ivs@, a as int, b as int),
{
    let mut cur: i64 = a;
    while cur < b
        invariant
            a <= cur,
            forall|t: int| a <= t < cur ==> #[trigger] covered_at(ivs@, t),
        decreases if cur < b { b - cur } else { 0 },
    {
        let mut next: i64 = cur;
        let mut k: usize = 0;
        let ghost mut found: int = -1;
        while k < ivs.len()
            invariant
                0 <= k <= ivs@.len(),
                cur < b,
                cur <= next,
                next == cur ==> forall|j: int| 0 <= j < k ==> !((#[trigger] ivs@[j]).0 <= cur < ivs@[j].1),
                next > cur ==> 0 <= found < ivs@.len() && ivs@[found].0 <= cur && ivs@[found].1 == next,
            decreases ivs@.len() - k,
        {
            let (s, e) = ivs[k];
            if s <= cur && cur < e && e > next {
                next = e;
                proof {
                    found = k as int;
                }
            }
            k = k + 1;
        }
        if next == cur {
            proof {
                assert(!covered_at(ivs@, cur as int));
            }
            return false;
        }
        proof {
            assert forall|t: int| a <= t < next implies #[trigger] covered_at(ivs@, t) by {
                if t >= cur {
                    assert(ivs@[found].0 <= t < ivs@[found].1);
                }
            }
        }
        assert(next > cur);
        cur = next;
    }
    true
}

} // verus!
