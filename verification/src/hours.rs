//! A small reader of OpenStreetMap `opening_hours` values.
//!
//! It handles the common forms:
//!
//! ```text
//! Mo-Fr 07:00-19:00
//! Mo-Sa 07:00-13:00,15:00-19:30
//! Mo-Fr 07:00-20:00; Sa 08:00-18:00; Su 08:00-12:00
//! 24/7
//! closed / off
//! ```
//!
//! Public holidays, week numbers, months and sunrise or sunset are not handled. A
//! value with a rule that holds one of them is reported as `Unknown` rather than
//! guessed at, wherever in the value the rule stands. Otherwise the rules are read
//! in order: an interval that holds the moment ends the reading, and so does what
//! cannot be read for some other reason, which is reported as `Unknown` too.

use crate::clock::{LocalTime, Weekday};
use crate::text;
use vstd::prelude::*;

verus! {

/// What is known of a place at a moment.
#[derive(Clone, Copy, Debug, PartialEq, Eq, Structural)]
pub enum Openness {
    Open,
    Closed,
    Unknown,
}

/// The minute of the day that a text such as `07:30` writes. The hours go up to
/// 48, so that an interval may end on the next day.
pub open spec fn minute_of(s: Seq<char>) -> Option<int> {
    match text::cut_once(s, ':') {
        Some((h, m)) => match (text::integer_of(h), text::integer_of(m)) {
            (Some(hour), Some(minute)) => if 0 <= hour <= 48 && 0 <= minute <= 59 {
                Some(hour * 60 + minute)
            } else {
                None
            },
            _ => None,
        },
        None => None,
    }
}

/// The two minutes that a text such as `07:00-19:00` writes.
pub open spec fn interval_of(s: Seq<char>) -> Option<(int, int)> {
    match text::cut_once(s, '-') {
        Some((a, b)) => match (
            minute_of(text::trimmed(a)),
            minute_of(text::trimmed(b)),
        ) {
            (Some(from), Some(to)) => Some((from, to)),
            _ => None,
        },
        None => None,
    }
}

/// The day that a two-letter name stands for.
pub open spec fn day_of(s: Seq<char>) -> Option<Weekday> {
    if s == "Mo"@ {
        Some(Weekday::Mon)
    } else if s == "Tu"@ {
        Some(Weekday::Tue)
    } else if s == "We"@ {
        Some(Weekday::Wed)
    } else if s == "Th"@ {
        Some(Weekday::Thu)
    } else if s == "Fr"@ {
        Some(Weekday::Fri)
    } else if s == "Sa"@ {
        Some(Weekday::Sat)
    } else if s == "Su"@ {
        Some(Weekday::Sun)
    } else {
        None
    }
}

/// The days from `a` to the next `b`, both included, round the end of the week
/// where `b` comes before `a`.
pub open spec fn day_range(a: Weekday, b: Weekday) -> Seq<Weekday> {
    Seq::new(
        ((b.number() - a.number()) % 7 + 1) as nat,
        |i: int| Weekday::after_monday(a.number() + i),
    )
}

/// The days that one item of a list of days names: a day, or two days with `-`
/// between them.
pub open spec fn item_days(item: Seq<char>) -> Option<Seq<Weekday>> {
    let item = text::trimmed(item);
    match text::cut_once(item, '-') {
        Some((a, b)) => match (
            day_of(text::trimmed(a)),
            day_of(text::trimmed(b)),
        ) {
            (Some(first), Some(last)) => Some(day_range(first, last)),
            _ => None,
        },
        None => match day_of(item) {
            Some(day) => Some(seq![day]),
            None => None,
        },
    }
}

/// The days that the items name, in order; `None` where one names none.
pub open spec fn items_days(items: Seq<Seq<char>>) -> Option<Seq<Weekday>>
    decreases items.len(),
{
    if items.len() == 0 {
        Some(Seq::empty())
    } else {
        match (item_days(items[0]), items_days(items.drop_first())) {
            (Some(days), Some(rest)) => Some(days + rest),
            _ => None,
        }
    }
}

/// The days that a text such as `Mo-We,Fr` names.
pub open spec fn days_of(s: Seq<char>) -> Option<Seq<Weekday>> {
    items_days(text::parts(s, ','))
}

/// The test for a decimal digit.
pub open spec fn is_a_digit() -> spec_fn(char) -> bool {
    |c: char| text::digit(c)
}

/// The days and the times of a rule: the times start at the first digit. A rule
/// that starts with its times is for every day; one without a digit has none.
pub open spec fn days_and_times(rule: Seq<char>) -> Option<(Seq<char>, Seq<char>)> {
    let rule = text::trimmed(rule);
    let at = text::first_where(rule, is_a_digit());
    if at >= rule.len() {
        None
    } else if at == 0 {
        Some(("Mo-Su"@, rule))
    } else {
        Some((text::trimmed(rule.take(at)), text::trimmed(rule.skip(at))))
    }
}

/// Whether one interval can be read.
pub open spec fn interval_readable(interval: Seq<char>) -> bool {
    interval_of(text::trimmed(interval)) is Some
}

/// Whether one interval can be read and holds a minute of the day: its start is
/// in it and its end is not.
pub open spec fn interval_holds(interval: Seq<char>, minute: int) -> bool {
    match interval_of(text::trimmed(interval)) {
        Some((from, to)) => from <= minute < to,
        None => false,
    }
}

/// Whether every interval of a list can be read.
pub open spec fn all_readable(intervals: Seq<Seq<char>>) -> bool {
    forall|j: int| 0 <= j < intervals.len() ==> interval_readable(#[trigger] intervals[j])
}

/// What a list of intervals settles at a minute of the day, read from the left:
/// `None` where every interval can be read and none holds the minute.
pub open spec fn intervals_verdict(intervals: Seq<Seq<char>>, minute: int) -> Option<Openness>
    decreases intervals.len(),
{
    if intervals.len() == 0 {
        None
    } else if !interval_readable(intervals[0]) {
        Some(Openness::Unknown)
    } else if interval_holds(intervals[0], minute) {
        Some(Openness::Open)
    } else {
        intervals_verdict(intervals.drop_first(), minute)
    }
}

/// Whether a rule is not blank, and has no times or names no days.
pub open spec fn rule_is_foreign(rule: Seq<char>) -> bool {
    text::trimmed(rule).len() > 0 && match days_and_times(rule) {
        Some((days, times)) => days_of(days) is None,
        None => true,
    }
}

/// The intervals of a rule on a day that it names; `None` where it names other
/// days or cannot be read.
pub open spec fn times_on(rule: Seq<char>, day: Weekday) -> Option<Seq<Seq<char>>> {
    match days_and_times(rule) {
        Some((days, times)) => match days_of(days) {
            Some(named) => if named.contains(day) {
                Some(text::parts(times, ','))
            } else {
                None
            },
            None => None,
        },
        None => None,
    }
}

/// What one rule settles at a moment: `None` where the rule is blank, is for
/// other days, or has no interval that holds the moment.
pub open spec fn rule_verdict(rule: Seq<char>, day: Weekday, minute: int) -> Option<Openness> {
    if rule_is_foreign(rule) {
        Some(Openness::Unknown)
    } else {
        match times_on(rule, day) {
            Some(intervals) => intervals_verdict(intervals, minute),
            None => None,
        }
    }
}

/// What a list of rules says of a moment, read in order: the first rule that
/// settles it decides, and a moment that no rule settles is closed.
pub open spec fn rules_in_order(rules: Seq<Seq<char>>, day: Weekday, minute: int) -> Openness
    decreases rules.len(),
{
    if rules.len() == 0 {
        Openness::Closed
    } else {
        match rule_verdict(rules[0], day, minute) {
            Some(openness) => openness,
            None => rules_in_order(rules.drop_first(), day, minute),
        }
    }
}

/// Whether a rule cannot be read for a day: it is foreign, or it names the day
/// and one of its intervals cannot be read.
pub open spec fn rule_unreadable(rule: Seq<char>, day: Weekday) -> bool {
    rule_is_foreign(rule) || match times_on(rule, day) {
        Some(intervals) => !all_readable(intervals),
        None => false,
    }
}

/// The words of rules that are not handled: for public holidays, for weeks, for
/// sunrise and sunset, and for months.
pub open spec fn unhandled_words() -> Seq<Seq<char>> {
    seq![
        "PH"@,
        "week"@,
        "sunrise"@,
        "sunset"@,
        "Jan"@,
        "Feb"@,
        "Mar"@,
        "Apr"@,
        "May"@,
        "Jun"@,
        "Jul"@,
        "Aug"@,
        "Sep"@,
        "Oct"@,
        "Nov"@,
        "Dec"@,
    ]
}

/// Whether a text has one of the words of rules that are not handled.
pub open spec fn has_unhandled_word(s: Seq<char>) -> bool {
    exists|i: int|
        0 <= i < unhandled_words().len() && text::has_word(s, #[trigger] unhandled_words()[i])
}

/// Whether a rule cannot be read for a day and is one for public holidays, for
/// weeks, for sunrise or sunset, or for months.
pub open spec fn rule_unhandled(rule: Seq<char>, day: Weekday) -> bool {
    has_unhandled_word(rule) && rule_unreadable(rule, day)
}

/// Whether one of the rules is not handled on a day.
pub open spec fn some_unhandled(rules: Seq<Seq<char>>, day: Weekday) -> bool {
    exists|k: int| 0 <= k < rules.len() && rule_unhandled(#[trigger] rules[k], day)
}

/// What a list of rules says of a moment: nothing is known where one of them is
/// not handled on that day, and else the rules are read in order.
pub open spec fn rules_status(rules: Seq<Seq<char>>, day: Weekday, minute: int) -> Openness {
    if some_unhandled(rules, day) {
        Openness::Unknown
    } else {
        rules_in_order(rules, day, minute)
    }
}

/// Whether `spec` is one of the values that are a word and no list of rules.
pub open spec fn is_word(spec: Seq<char>) -> bool {
    let s = text::trimmed(spec);
    ||| s.len() == 0
    ||| text::lower_case_is(s, "24/7"@)
    ||| text::lower_case_is(s, "closed"@)
    ||| text::lower_case_is(s, "off"@)
}

/// The rules of a value that is no word.
pub open spec fn rules_of(spec: Seq<char>) -> Seq<Seq<char>> {
    text::parts(text::trimmed(spec), ';')
}

/// What the opening hours `spec` say of a minute of a day.
pub open spec fn openness(spec: Seq<char>, day: Weekday, minute: int) -> Openness {
    let s = text::trimmed(spec);
    if s.len() == 0 {
        Openness::Unknown
    } else if text::lower_case_is(s, "24/7"@) {
        Openness::Open
    } else if text::lower_case_is(s, "closed"@) || text::lower_case_is(s, "off"@) {
        Openness::Closed
    } else {
        rules_status(rules_of(spec), day, minute)
    }
}

/// What the opening hours `spec` say of the moment `at`.
pub fn status_at(spec: &str, at: &LocalTime) -> (status: Openness)
    requires
        at.wf(),
    ensures
        status == openness(spec@, at.weekday, at.minute_of_day()),
{
    let s: &str = text::trim(spec);
    if s.is_empty() {
        return Openness::Unknown;
    }
    if text::is_lower_case(s, "24/7") {
        return Openness::Open;
    }
    if text::is_lower_case(s, "closed") || text::is_lower_case(s, "off") {
        return Openness::Closed;
    }
    let minute_of_day: i32 = at.hour as i32 * 60 + at.minute as i32;
    let rules: Vec<&str> = text::split(s, ';');
    let ghost all = text::texts(rules@);
    let mut i: usize = 0;
    while i < rules.len()
        invariant
            i <= rules@.len(),
            all == text::texts(rules@),
            all == rules_of(spec@),
            !is_word(spec@),
            forall|k: int| 0 <= k < i ==> !rule_unhandled(#[trigger] all[k], at.weekday),
        decreases rules@.len() - i,
    {
        assert(all[i as int] == rules@[i as int]@);
        if is_unhandled(rules[i], at.weekday) {
            return Openness::Unknown;
        }
        i += 1;
    }
    read_in_order(&rules, at.weekday, minute_of_day)
}

/// What a list of rules says of a minute of a day, read in order.
fn read_in_order(rules: &Vec<&str>, day: Weekday, minute: i32) -> (status: Openness)
    ensures
        status == rules_in_order(text::texts(rules@), day, minute as int),
{
    let ghost all = text::texts(rules@);
    let mut i: usize = 0;
    assert(all.skip(0) == all);
    while i < rules.len()
        invariant
            i <= rules@.len(),
            all == text::texts(rules@),
            rules_in_order(all.skip(i as int), day, minute as int) == rules_in_order(
                all,
                day,
                minute as int,
            ),
        decreases rules@.len() - i,
    {
        assert(all.skip(i as int)[0] == rules@[i as int]@);
        assert(all.skip(i as int).drop_first() == all.skip(i + 1));
        match rule_status(rules[i], day, minute) {
            Some(status) => {
                return status;
            },
            None => {},
        }
        i += 1;
    }
    Openness::Closed
}

/// Whether a text has one of the words of rules that are not handled.
fn names_unhandled(s: &str) -> (yes: bool)
    ensures
        yes == has_unhandled_word(s@),
{
    let words: Vec<&str> = vec![
        "PH", "week", "sunrise", "sunset", "Jan", "Feb", "Mar", "Apr", "May", "Jun", "Jul", "Aug",
        "Sep", "Oct", "Nov", "Dec",
    ];
    let ghost all = unhandled_words();
    assert(text::texts(words@) =~= all);
    let mut i: usize = 0;
    while i < words.len()
        invariant
            i <= words@.len(),
            all == unhandled_words(),
            text::texts(words@) == all,
            forall|k: int| 0 <= k < i ==> !text::has_word(s@, #[trigger] all[k]),
        decreases words@.len() - i,
    {
        assert(all[i as int] == words@[i as int]@);
        if text::contains_word(s, words[i]) {
            assert(text::has_word(s@, unhandled_words()[i as int]));
            return true;
        }
        i += 1;
    }
    false
}

/// Whether every interval of a comma-separated list can be read.
fn are_readable(times: &str) -> (yes: bool)
    ensures
        yes == all_readable(text::parts(times@, ',')),
{
    let intervals: Vec<&str> = text::split(times, ',');
    let ghost all = text::texts(intervals@);
    let mut i: usize = 0;
    while i < intervals.len()
        invariant
            i <= intervals@.len(),
            all == text::texts(intervals@),
            all == text::parts(times@, ','),
            forall|j: int| 0 <= j < i ==> interval_readable(#[trigger] all[j]),
        decreases intervals@.len() - i,
    {
        assert(all[i as int] == intervals@[i as int]@);
        if parse_interval(text::trim(intervals[i])).is_none() {
            assert(!interval_readable(all[i as int]));
            return false;
        }
        i += 1;
    }
    true
}

/// Whether a rule cannot be read for a day.
fn is_unreadable(rule: &str, day: Weekday) -> (yes: bool)
    ensures
        yes == rule_unreadable(rule@, day),
{
    if text::trim(rule).is_empty() {
        return false;
    }
    match split_days_times(rule) {
        None => true,
        Some((days_part, time_part)) => match parse_days(days_part) {
            None => true,
            Some(days) => names_day(&days, day) && !are_readable(time_part),
        },
    }
}

/// Whether a rule cannot be read for a day and is of a kind that is not handled.
fn is_unhandled(rule: &str, day: Weekday) -> (yes: bool)
    ensures
        yes == rule_unhandled(rule@, day),
{
    names_unhandled(rule) && is_unreadable(rule, day)
}

/// What one rule settles at a minute of a day.
pub fn rule_status(rule: &str, day: Weekday, minute: i32) -> (verdict: Option<Openness>)
    ensures
        verdict == rule_verdict(rule@, day, minute as int),
{
    let ghost whole = rule@;
    let rule: &str = text::trim(rule);
    if rule.is_empty() {
        return None;
    }
    proof {
        text::trim_is_idempotent(whole);
    }
    match split_days_times(rule) {
        None => Some(Openness::Unknown),
        Some((days_part, time_part)) => match parse_days(days_part) {
            None => Some(Openness::Unknown),
            Some(days) => if names_day(&days, day) {
                intervals_status(time_part, minute)
            } else {
                None
            },
        },
    }
}

/// What a comma-separated list of intervals settles at a minute of the day.
pub fn intervals_status(times: &str, minute: i32) -> (verdict: Option<Openness>)
    ensures
        verdict == intervals_verdict(text::parts(times@, ','), minute as int),
{
    let intervals: Vec<&str> = text::split(times, ',');
    let ghost all = text::texts(intervals@);
    let mut i: usize = 0;
    assert(all.skip(0) == all);
    while i < intervals.len()
        invariant
            i <= intervals@.len(),
            all == text::texts(intervals@),
            all == text::parts(times@, ','),
            intervals_verdict(all.skip(i as int), minute as int) == intervals_verdict(
                all,
                minute as int,
            ),
        decreases intervals@.len() - i,
    {
        assert(all.skip(i as int)[0] == intervals@[i as int]@);
        assert(all.skip(i as int).drop_first() == all.skip(i + 1));
        match parse_interval(text::trim(intervals[i])) {
            None => {
                return Some(Openness::Unknown);
            },
            Some((from, to)) => {
                if from <= minute && minute < to {
                    return Some(Openness::Open);
                }
            },
        }
        i += 1;
    }
    None
}

/// Whether `day` is one of `days`.
fn names_day(days: &Vec<Weekday>, day: Weekday) -> (yes: bool)
    ensures
        yes == days@.contains(day),
{
    let mut i: usize = 0;
    while i < days.len()
        invariant
            i <= days@.len(),
            forall|j: int| 0 <= j < i ==> days@[j] != day,
        decreases days@.len() - i,
    {
        if days[i] == day {
            assert(days@[i as int] == day);
            return true;
        }
        i += 1;
    }
    false
}

/// The days and the times of a rule such as `Mo-Fr 07:00-19:00`.
pub fn split_days_times(rule: &str) -> (cut: Option<(&str, &str)>)
    ensures
        match cut {
            Some((days, times)) => days_and_times(rule@) == Some((days@, times@)),
            None => days_and_times(rule@) is None,
        },
{
    let rule: &str = text::trim(rule);
    let chars: Vec<char> = text::chars_of(rule);
    let mut at: usize = 0;
    while at < chars.len() && !text::is_digit(chars[at])
        invariant
            at <= chars@.len(),
            forall|i: int| 0 <= i < at ==> !text::digit(#[trigger] chars@[i]),
        decreases chars@.len() - at,
    {
        at += 1;
    }
    proof {
        text::lemma_first_where_is(rule@, is_a_digit(), at as int);
    }
    if at == chars.len() {
        return None;
    }
    if at == 0 {
        return Some(("Mo-Su", rule));
    }
    let days: &str = rule.substring_char(0, at);
    let times: &str = rule.substring_char(at, chars.len());
    assert(days@ == rule@.take(at as int));
    assert(times@ == rule@.skip(at as int));
    Some((text::trim(days), text::trim(times)))
}

/// The days that a text such as `Mo-We,Fr` names, in its order.
pub fn parse_days(s: &str) -> (days: Option<Vec<Weekday>>)
    ensures
        match days {
            Some(v) => days_of(s@) == Some(v@),
            None => days_of(s@) is None,
        },
{
    let mut out: Vec<Weekday> = Vec::new();
    let items: Vec<&str> = text::split(s, ',');
    let ghost all = text::texts(items@);
    let mut i: usize = 0;
    assert(all.skip(0) == all);
    while i < items.len()
        invariant
            i <= items@.len(),
            all == text::texts(items@),
            all == text::parts(s@, ','),
            match items_days(all.skip(i as int)) {
                Some(rest) => items_days(all) == Some(out@ + rest),
                None => items_days(all) is None,
            },
        decreases items@.len() - i,
    {
        assert(all.skip(i as int)[0] == items@[i as int]@);
        assert(all.skip(i as int).drop_first() == all.skip(i + 1));
        let ghost before = out@;
        match parse_day_item(items[i]) {
            None => {
                return None;
            },
            Some(named) => {
                let mut more: Vec<Weekday> = named;
                out.append(&mut more);
                proof {
                    if let Some(rest) = items_days(all.skip(i + 1)) {
                        assert(before + (named@ + rest) == out@ + rest);
                    }
                }
            },
        }
        i += 1;
    }
    assert(out@ + Seq::<Weekday>::empty() == out@);
    Some(out)
}

/// The days that one item of a list of days names.
fn parse_day_item(item: &str) -> (days: Option<Vec<Weekday>>)
    ensures
        match days {
            Some(v) => item_days(item@) == Some(v@),
            None => item_days(item@) is None,
        },
{
    let piece: &str = text::trim(item);
    match text::split_once(piece, '-') {
        Some((a, b)) => match (parse_day(text::trim(a)), parse_day(text::trim(b))) {
            (Some(first), Some(last)) => Some(days_between(first, last)),
            _ => None,
        },
        None => match parse_day(piece) {
            Some(day) => {
                let mut days: Vec<Weekday> = Vec::new();
                days.push(day);
                assert(days@ == seq![day]);
                Some(days)
            },
            None => None,
        },
    }
}

/// The days from `a` to the next `b`.
fn days_between(a: Weekday, b: Weekday) -> (days: Vec<Weekday>)
    ensures
        days@ == day_range(a, b),
{
    let mut days: Vec<Weekday> = Vec::new();
    let mut d: Weekday = a;
    days.push(d);
    while d != b
        invariant
            1 <= days@.len() <= day_range(a, b).len(),
            days@ == day_range(a, b).take(days@.len() as int),
            d == Weekday::after_monday(a.number() + days@.len() - 1),
            d == b <==> days@.len() == day_range(a, b).len(),
        decreases day_range(a, b).len() - days@.len(),
    {
        d = d.succ();
        days.push(d);
    }
    days
}

/// The day that a two-letter name stands for.
pub fn parse_day(s: &str) -> (day: Option<Weekday>)
    ensures
        day == day_of(s@),
{
    if text::same_text(s, "Mo") {
        Some(Weekday::Mon)
    } else if text::same_text(s, "Tu") {
        Some(Weekday::Tue)
    } else if text::same_text(s, "We") {
        Some(Weekday::Wed)
    } else if text::same_text(s, "Th") {
        Some(Weekday::Thu)
    } else if text::same_text(s, "Fr") {
        Some(Weekday::Fri)
    } else if text::same_text(s, "Sa") {
        Some(Weekday::Sat)
    } else if text::same_text(s, "Su") {
        Some(Weekday::Sun)
    } else {
        None
    }
}

/// The two minutes of the day that a text such as `07:00-19:00` writes.
pub fn parse_interval(s: &str) -> (interval: Option<(i32, i32)>)
    ensures
        match interval {
            Some((from, to)) => interval_of(s@) == Some((from as int, to as int)),
            None => interval_of(s@) is None,
        },
{
    match text::split_once(s, '-') {
        Some((a, b)) => match (parse_hm(text::trim(a)), parse_hm(text::trim(b))) {
            (Some(from), Some(to)) => Some((from, to)),
            _ => None,
        },
        None => None,
    }
}

/// The minute of the day that a text such as `07:30` writes.
pub fn parse_hm(s: &str) -> (minute: Option<i32>)
    ensures
        match minute {
            Some(m) => minute_of(s@) == Some(m as int) && 0 <= m <= 48 * 60 + 59,
            None => minute_of(s@) is None,
        },
{
    match text::split_once(s, ':') {
        Some((h, m)) => match (text::parse_i32(h), text::parse_i32(m)) {
            (Some(hour), Some(minute)) => if 0 <= hour && hour <= 48 && 0 <= minute && minute <= 59 {
                Some(hour * 60 + minute)
            } else {
                None
            },
            _ => None,
        },
        None => None,
    }
}

/// Whether one interval can be read and does not hold a minute of the day.
pub open spec fn interval_passes(interval: Seq<char>, minute: int) -> bool {
    interval_readable(interval) && !interval_holds(interval, minute)
}

/// Whether every interval of a list passes.
pub open spec fn all_pass(intervals: Seq<Seq<char>>, minute: int) -> bool {
    forall|j: int| 0 <= j < intervals.len() ==> interval_passes(#[trigger] intervals[j], minute)
}

/// Whether an interval of a list holds a minute and every one before it passes.
pub open spec fn first_holds(intervals: Seq<Seq<char>>, minute: int) -> bool {
    exists|j: int|
        0 <= j < intervals.len() && interval_holds(#[trigger] intervals[j], minute) && all_pass(
            intervals.take(j),
            minute,
        )
}

/// Whether an interval of a list holds a minute.
pub open spec fn some_holds(intervals: Seq<Seq<char>>, minute: int) -> bool {
    exists|j: int| 0 <= j < intervals.len() && interval_holds(#[trigger] intervals[j], minute)
}

/// Whether a rule is blank, or can be read and does not open the place: it names
/// other days, or every one of its intervals passes.
pub open spec fn rule_passes(rule: Seq<char>, day: Weekday, minute: int) -> bool {
    !rule_is_foreign(rule) && match times_on(rule, day) {
        Some(intervals) => all_pass(intervals, minute),
        None => true,
    }
}

/// Whether a rule opens the place: it names the day, and an interval of it holds
/// the minute and stands before any that cannot be read.
pub open spec fn rule_opens(rule: Seq<char>, day: Weekday, minute: int) -> bool {
    match times_on(rule, day) {
        Some(intervals) => first_holds(intervals, minute),
        None => false,
    }
}

/// Whether a rule names a day and has an interval that holds a minute of it.
pub open spec fn rule_holds(rule: Seq<char>, day: Weekday, minute: int) -> bool {
    match times_on(rule, day) {
        Some(intervals) => some_holds(intervals, minute),
        None => false,
    }
}

/// `24/7` is open at every moment, whatever space is around it.
pub proof fn always_open(spec: Seq<char>, day: Weekday, minute: int)
    requires
        text::trimmed(spec) == "24/7"@,
    ensures
        openness(spec, day, minute) == Openness::Open,
{
    reveal_strlit("24/7");
}

/// `closed` and `off` are closed at every moment, in capitals too.
pub proof fn closed_words_are_closed(spec: Seq<char>, day: Weekday, minute: int)
    requires
        text::lower_case_is(text::trimmed(spec), "closed"@) || text::lower_case_is(
            text::trimmed(spec),
            "off"@,
        ),
    ensures
        openness(spec, day, minute) == Openness::Closed,
{
    reveal_strlit("24/7");
    reveal_strlit("closed");
    reveal_strlit("off");
    let s = text::trimmed(spec);
    if s.len() == 4 {
        assert(false);
    }
}

/// A blank value says nothing.
pub proof fn blank_is_unknown(spec: Seq<char>, day: Weekday, minute: int)
    requires
        forall|i: int| 0 <= i < spec.len() ==> text::white_space(#[trigger] spec[i]),
    ensures
        openness(spec, day, minute) == Openness::Unknown,
{
    let none: Seq<char> = Seq::empty();
    text::padding_is_trimmed(spec, none, none);
    assert(spec + none + none == spec);
}

/// Space around a value changes nothing of what it says.
pub proof fn padding_is_ignored(
    before: Seq<char>,
    spec: Seq<char>,
    after: Seq<char>,
    day: Weekday,
    minute: int,
)
    requires
        forall|i: int| 0 <= i < before.len() ==> text::white_space(#[trigger] before[i]),
        forall|i: int| 0 <= i < after.len() ==> text::white_space(#[trigger] after[i]),
    ensures
        openness(before + spec + after, day, minute) == openness(spec, day, minute),
{
    text::padding_is_trimmed(before, spec, after);
}

/// What a list of intervals settles, interval by interval.
proof fn lemma_intervals(intervals: Seq<Seq<char>>, minute: int)
    ensures
        intervals_verdict(intervals, minute) == Some(Openness::Open) <==> first_holds(
            intervals,
            minute,
        ),
        intervals_verdict(intervals, minute) is None <==> all_pass(intervals, minute),
        intervals_verdict(intervals, minute) != Some(Openness::Closed),
    decreases intervals.len(),
{
    if intervals.len() > 0 {
        lemma_intervals(intervals.drop_first(), minute);
        lemma_all_pass(intervals, minute);
        lemma_first_holds(intervals, minute);
    }
}

/// A list passes where its first interval and the others do.
proof fn lemma_all_pass(intervals: Seq<Seq<char>>, minute: int)
    requires
        intervals.len() > 0,
    ensures
        all_pass(intervals, minute) <==> interval_passes(intervals[0], minute) && all_pass(
            intervals.drop_first(),
            minute,
        ),
{
    let rest = intervals.drop_first();
    if interval_passes(intervals[0], minute) && all_pass(rest, minute) {
        assert forall|j: int| 0 <= j < intervals.len() implies interval_passes(
            #[trigger] intervals[j],
            minute,
        ) by {
            if j > 0 {
                assert(rest[j - 1] == intervals[j]);
            }
        }
    }
    if all_pass(intervals, minute) {
        assert forall|j: int| 0 <= j < rest.len() implies interval_passes(
            #[trigger] rest[j],
            minute,
        ) by {
            assert(rest[j] == intervals[j + 1]);
        }
    }
}

/// An interval of a list that holds the minute, with only intervals that pass
/// before it, is the first or, where the first passes, one of the others.
proof fn lemma_first_holds(intervals: Seq<Seq<char>>, minute: int)
    requires
        intervals.len() > 0,
    ensures
        first_holds(intervals, minute) <==> interval_holds(intervals[0], minute) || (
        interval_passes(intervals[0], minute) && first_holds(intervals.drop_first(), minute)),
{
    let rest = intervals.drop_first();
    if interval_holds(intervals[0], minute) {
        assert(all_pass(intervals.take(0), minute));
        assert(first_holds(intervals, minute));
    } else if interval_passes(intervals[0], minute) && first_holds(rest, minute) {
        let j = choose|j: int|
            0 <= j < rest.len() && interval_holds(#[trigger] rest[j], minute) && all_pass(
                rest.take(j),
                minute,
            );
        assert(intervals.take(j + 1).drop_first() == rest.take(j));
        lemma_all_pass(intervals.take(j + 1), minute);
        assert(interval_holds(intervals[j + 1], minute));
    }
    if first_holds(intervals, minute) && !interval_holds(intervals[0], minute) {
        let j = choose|j: int|
            0 <= j < intervals.len() && interval_holds(#[trigger] intervals[j], minute) && all_pass(
                intervals.take(j),
                minute,
            );
        assert(intervals.take(j).drop_first() == rest.take(j - 1));
        lemma_all_pass(intervals.take(j), minute);
        assert(interval_holds(rest[j - 1], minute));
    }
}

/// What a list of intervals each of which can be read settles.
proof fn lemma_readable_intervals(intervals: Seq<Seq<char>>, minute: int)
    requires
        all_readable(intervals),
    ensures
        intervals_verdict(intervals, minute) == if some_holds(intervals, minute) {
            Some(Openness::Open)
        } else {
            None
        },
    decreases intervals.len(),
{
    if intervals.len() > 0 {
        let rest = intervals.drop_first();
        assert forall|j: int| 0 <= j < rest.len() implies interval_readable(#[trigger] rest[j]) by {
            assert(rest[j] == intervals[j + 1]);
        }
        lemma_readable_intervals(rest, minute);
        assert(interval_readable(intervals[0]));
        if some_holds(rest, minute) {
            let j = choose|j: int|
                0 <= j < rest.len() && interval_holds(#[trigger] rest[j], minute);
            assert(interval_holds(intervals[j + 1], minute));
        }
        if some_holds(intervals, minute) && !interval_holds(intervals[0], minute) {
            let j = choose|j: int|
                0 <= j < intervals.len() && interval_holds(#[trigger] intervals[j], minute);
            assert(interval_holds(rest[j - 1], minute));
        }
    }
}

/// What one rule settles: it passes, opens the place, or cannot be read.
proof fn lemma_rule(rule: Seq<char>, day: Weekday, minute: int)
    ensures
        rule_verdict(rule, day, minute) is None <==> rule_passes(rule, day, minute),
        !rule_passes(rule, day, minute) ==> rule_verdict(rule, day, minute) == if rule_opens(
            rule,
            day,
            minute,
        ) {
            Some(Openness::Open)
        } else {
            Some(Openness::Unknown)
        },
        rule_passes(rule, day, minute) ==> !rule_unreadable(rule, day),
{
    if let Some(intervals) = times_on(rule, day) {
        lemma_intervals(intervals, minute);
        if all_pass(intervals, minute) {
            assert forall|j: int| 0 <= j < intervals.len() implies interval_readable(
                #[trigger] intervals[j],
            ) by {
                assert(interval_passes(intervals[j], minute));
            }
        }
    }
}

/// What one rule that can be read settles.
proof fn lemma_readable_rule(rule: Seq<char>, day: Weekday, minute: int)
    requires
        !rule_unreadable(rule, day),
    ensures
        rule_verdict(rule, day, minute) == if rule_holds(rule, day, minute) {
            Some(Openness::Open)
        } else {
            None
        },
{
    if let Some(intervals) = times_on(rule, day) {
        lemma_readable_intervals(intervals, minute);
    }
}

/// The first rule that does not pass decides.
proof fn lemma_rules(rules: Seq<Seq<char>>, day: Weekday, minute: int, k: int)
    requires
        0 <= k <= rules.len(),
        forall|i: int| 0 <= i < k ==> rule_passes(#[trigger] rules[i], day, minute),
    ensures
        rules_in_order(rules, day, minute) == rules_in_order(rules.skip(k), day, minute),
    decreases k,
{
    if k == 0 {
        assert(rules.skip(0) == rules);
    } else {
        lemma_rule(rules[0], day, minute);
        let rest = rules.drop_first();
        assert forall|i: int| 0 <= i < k - 1 implies rule_passes(
            #[trigger] rest[i],
            day,
            minute,
        ) by {
            assert(rest[i] == rules[i + 1]);
        }
        lemma_rules(rest, day, minute, k - 1);
        assert(rest.skip(k - 1) == rules.skip(k));
    }
}

/// The first rule that does not pass.
proof fn lemma_deciding_rule(rules: Seq<Seq<char>>, day: Weekday, minute: int) -> (k: int)
    ensures
        0 <= k <= rules.len(),
        forall|i: int| 0 <= i < k ==> rule_passes(#[trigger] rules[i], day, minute),
        k < rules.len() ==> !rule_passes(rules[k], day, minute) && rule_verdict(
            rules[k],
            day,
            minute,
        ) == Some(rules_in_order(rules, day, minute)),
        k == rules.len() ==> rules_in_order(rules, day, minute) == Openness::Closed,
    decreases rules.len(),
{
    if rules.len() == 0 {
        0
    } else {
        lemma_rule(rules[0], day, minute);
        if rule_passes(rules[0], day, minute) {
            let rest = rules.drop_first();
            let k = lemma_deciding_rule(rest, day, minute);
            assert forall|i: int| 0 <= i < k + 1 implies rule_passes(
                #[trigger] rules[i],
                day,
                minute,
            ) by {
                if i > 0 {
                    assert(rest[i - 1] == rules[i]);
                }
            }
            if k < rest.len() {
                assert(rest[k] == rules[k + 1]);
            }
            k + 1
        } else {
            0
        }
    }
}

/// A list of rules is closed at a moment exactly where each of its rules passes:
/// it is blank, or is read and is for other days or has no interval that holds
/// the minute.
pub proof fn closed_has_no_interval(spec: Seq<char>, day: Weekday, minute: int)
    requires
        !is_word(spec),
    ensures
        openness(spec, day, minute) == Openness::Closed <==> forall|k: int|
            0 <= k < rules_of(spec).len() ==> rule_passes(
                #[trigger] rules_of(spec)[k],
                day,
                minute,
            ),
{
    let rules = rules_of(spec);
    let k = lemma_deciding_rule(rules, day, minute);
    if k < rules.len() {
        lemma_rule(rules[k], day, minute);
    }
    assert forall|i: int| 0 <= i < k implies !rule_unhandled(#[trigger] rules[i], day) by {
        lemma_rule(rules[i], day, minute);
    }
}

/// A list of rules of which each is handled and one does not pass is open or
/// unknown. The first rule that does not pass decides: the place is open where it
/// opens the place, and else it cannot be read and the answer is unknown.
pub proof fn first_rule_that_settles_decides(
    spec: Seq<char>,
    day: Weekday,
    minute: int,
    k: int,
)
    requires
        !is_word(spec),
        !some_unhandled(rules_of(spec), day),
        0 <= k < rules_of(spec).len(),
        forall|i: int| 0 <= i < k ==> rule_passes(#[trigger] rules_of(spec)[i], day, minute),
        !rule_passes(rules_of(spec)[k], day, minute),
    ensures
        rule_opens(rules_of(spec)[k], day, minute) <==> openness(spec, day, minute)
            == Openness::Open,
        !rule_opens(rules_of(spec)[k], day, minute) <==> openness(spec, day, minute)
            == Openness::Unknown,
{
    let rules = rules_of(spec);
    lemma_rules(rules, day, minute, k);
    assert(rules.skip(k)[0] == rules[k]);
    lemma_rule(rules[k], day, minute);
}

/// A list of rules is open at a moment exactly where each of its rules is handled
/// and one of them opens the place, with only rules that pass before it.
pub proof fn open_has_an_interval(spec: Seq<char>, day: Weekday, minute: int)
    requires
        !is_word(spec),
    ensures
        openness(spec, day, minute) == Openness::Open <==> {
            &&& !some_unhandled(rules_of(spec), day)
            &&& exists|k: int|
                0 <= k < rules_of(spec).len() && rule_opens(
                    #[trigger] rules_of(spec)[k],
                    day,
                    minute,
                ) && forall|i: int|
                    0 <= i < k ==> rule_passes(#[trigger] rules_of(spec)[i], day, minute)
        },
{
    let rules = rules_of(spec);
    let at = lemma_deciding_rule(rules, day, minute);
    if at < rules.len() {
        lemma_rule(rules[at], day, minute);
    }
    if exists|k: int|
        0 <= k < rules.len() && rule_opens(#[trigger] rules[k], day, minute) && forall|i: int|
            0 <= i < k ==> rule_passes(#[trigger] rules[i], day, minute) {
        let k = choose|k: int|
            0 <= k < rules.len() && rule_opens(#[trigger] rules[k], day, minute) && forall|i: int|
                0 <= i < k ==> rule_passes(#[trigger] rules[i], day, minute);
        lemma_opening_rule(rules[k], day, minute);
    }
}

/// A rule that opens the place does not pass.
proof fn lemma_opening_rule(rule: Seq<char>, day: Weekday, minute: int)
    requires
        rule_opens(rule, day, minute),
    ensures
        !rule_passes(rule, day, minute),
{
    let intervals = times_on(rule, day)->Some_0;
    let j = choose|j: int|
        0 <= j < intervals.len() && interval_holds(#[trigger] intervals[j], minute) && all_pass(
            intervals.take(j),
            minute,
        );
    assert(!interval_passes(intervals[j], minute));
}

/// A value with a rule that is not handled on a day is unknown all that day,
/// wherever in the value the rule stands and whatever the other rules say.
pub proof fn unhandled_rules_are_unknown(spec: Seq<char>, day: Weekday, minute: int)
    requires
        !is_word(spec),
        exists|k: int|
            0 <= k < rules_of(spec).len() && rule_unhandled(#[trigger] rules_of(spec)[k], day),
    ensures
        openness(spec, day, minute) == Openness::Unknown,
{
}

/// A value with a rule that cannot be read at all is unknown at every moment at
/// which none of the rules before it opens the place.
pub proof fn foreign_rules_are_unknown(spec: Seq<char>, day: Weekday, minute: int, k: int)
    requires
        !is_word(spec),
        0 <= k < rules_of(spec).len(),
        rule_is_foreign(rules_of(spec)[k]),
        forall|i: int| 0 <= i < k ==> !rule_opens(#[trigger] rules_of(spec)[i], day, minute),
    ensures
        openness(spec, day, minute) == Openness::Unknown,
{
    let rules = rules_of(spec);
    let at = lemma_deciding_rule(rules, day, minute);
    assert(!rule_passes(rules[k], day, minute));
    assert(at <= k);
    lemma_rule(rules[at], day, minute);
}

/// What a list of rules each of which can be read says in order.
proof fn lemma_readable_rules(rules: Seq<Seq<char>>, day: Weekday, minute: int)
    requires
        forall|k: int| 0 <= k < rules.len() ==> !rule_unreadable(#[trigger] rules[k], day),
    ensures
        rules_in_order(rules, day, minute) == if exists|k: int|
            0 <= k < rules.len() && rule_holds(#[trigger] rules[k], day, minute) {
            Openness::Open
        } else {
            Openness::Closed
        },
    decreases rules.len(),
{
    if rules.len() > 0 {
        let rest = rules.drop_first();
        assert forall|k: int| 0 <= k < rest.len() implies !rule_unreadable(
            #[trigger] rest[k],
            day,
        ) by {
            assert(rest[k] == rules[k + 1]);
        }
        lemma_readable_rules(rest, day, minute);
        lemma_readable_rule(rules[0], day, minute);
        if exists|k: int| 0 <= k < rest.len() && rule_holds(#[trigger] rest[k], day, minute) {
            let k = choose|k: int|
                0 <= k < rest.len() && rule_holds(#[trigger] rest[k], day, minute);
            assert(rule_holds(rules[k + 1], day, minute));
        } else if exists|k: int|
            0 < k < rules.len() && rule_holds(#[trigger] rules[k], day, minute) {
            let k = choose|k: int|
                0 < k < rules.len() && rule_holds(#[trigger] rules[k], day, minute);
            assert(rule_holds(rest[k - 1], day, minute));
        }
    }
}

/// Where each of the rules can be read for the day, the place is open exactly
/// where one of them names the day and has an interval that holds the minute, and
/// else closed.
pub proof fn readable_rules_settle_the_day(rules: Seq<Seq<char>>, day: Weekday, minute: int)
    requires
        forall|k: int| 0 <= k < rules.len() ==> !rule_unreadable(#[trigger] rules[k], day),
    ensures
        rules_status(rules, day, minute) == if exists|k: int|
            0 <= k < rules.len() && rule_holds(#[trigger] rules[k], day, minute) {
            Openness::Open
        } else {
            Openness::Closed
        },
{
    lemma_readable_rules(rules, day, minute);
}

/// Where each of the rules can be read for the day, their order, and saying one
/// twice, changes nothing.
pub proof fn order_of_rules_is_irrelevant(
    a: Seq<Seq<char>>,
    b: Seq<Seq<char>>,
    day: Weekday,
    minute: int,
)
    requires
        forall|rule: Seq<char>| #[trigger] a.contains(rule) <==> b.contains(rule),
        forall|k: int| 0 <= k < a.len() ==> !rule_unreadable(#[trigger] a[k], day),
    ensures
        rules_status(a, day, minute) == rules_status(b, day, minute),
{
    assert forall|k: int| 0 <= k < a.len() implies b.contains(#[trigger] a[k]) by {
        assert(a.contains(a[k]));
    }
    assert forall|k: int| 0 <= k < b.len() implies a.contains(#[trigger] b[k]) by {
        assert(b.contains(b[k]));
    }
    readable_rules_settle_the_day(a, day, minute);
    readable_rules_settle_the_day(b, day, minute);
}

/// A text that stands for a day is two characters long.
proof fn lemma_day_names_are_short(s: Seq<char>)
    requires
        day_of(s) is Some,
    ensures
        s.len() == 2,
{
    reveal_strlit("Mo");
    reveal_strlit("Tu");
    reveal_strlit("We");
    reveal_strlit("Th");
    reveal_strlit("Fr");
    reveal_strlit("Sa");
    reveal_strlit("Su");
}

/// An item that names days starts with the name of a day, where it does not
/// start with white space.
proof fn lemma_item_starts_with_a_day(item: Seq<char>)
    requires
        item.len() > 0 ==> !text::white_space(item[0]),
        item_days(item) is Some,
    ensures
        item.len() >= 2,
        day_of(item.take(2)) is Some,
{
    let whole = text::trimmed(item);
    text::trimmed_is_a_start(item);
    text::lemma_first_where(whole, text::is_char('-'));
    let name = match text::cut_once(whole, '-') {
        Some((a, b)) => {
            text::trimmed_is_a_start(a);
            text::trimmed(a)
        },
        None => whole,
    };
    lemma_day_names_are_short(name);
    assert(name == item.take(2));
}

/// A rule that starts neither with a digit nor with the name of a day cannot be
/// read.
pub proof fn rules_without_a_day_are_foreign(rule: Seq<char>)
    requires
        text::trimmed(rule).len() > 0,
        !text::digit(text::trimmed(rule)[0]),
        text::trimmed(rule).len() >= 2 ==> day_of(text::trimmed(rule).take(2)) is None,
    ensures
        rule_is_foreign(rule),
{
    let r = text::trimmed(rule);
    text::trimmed_ends(rule);
    text::lemma_first_where(r, is_a_digit());
    if let Some((days, times)) = days_and_times(rule) {
        let at = text::first_where(r, is_a_digit());
        text::trimmed_is_a_start(r.take(at));
        text::lemma_first_where(days, text::is_char(','));
        let first = text::parts(days, ',')[0];
        assert(first.is_prefix_of(r));
        if item_days(first) is Some {
            lemma_item_starts_with_a_day(first);
            assert(first.take(2) == r.take(2));
        }
    }
}

/// A rule with a word of the kinds that are not handled, such as `PH off`,
/// `week 10-20 Mo 08:00-12:00`, `Apr-Sep 08:00-12:00` or `sunrise-sunset`, that
/// starts neither with a digit nor with the name of a day is not handled, on any
/// day.
pub proof fn rules_of_those_kinds_are_unhandled(rule: Seq<char>, day: Weekday)
    requires
        has_unhandled_word(rule),
        text::trimmed(rule).len() > 0,
        !text::digit(text::trimmed(rule)[0]),
        text::trimmed(rule).len() >= 2 ==> day_of(text::trimmed(rule).take(2)) is None,
    ensures
        rule_unhandled(rule, day),
{
    rules_without_a_day_are_foreign(rule);
}

/// A list of rules none of which names the day is closed all that day.
pub proof fn unnamed_day_is_closed(spec: Seq<char>, day: Weekday, minute: int)
    requires
        !is_word(spec),
        forall|k: int|
            0 <= k < rules_of(spec).len() ==> match days_and_times(#[trigger] rules_of(spec)[k]) {
                Some((days, times)) => match days_of(days) {
                    Some(named) => !named.contains(day),
                    None => false,
                },
                None => false,
            },
    ensures
        openness(spec, day, minute) == Openness::Closed,
{
    closed_has_no_interval(spec, day, minute);
}

/// The day at a place of a range, by its number.
proof fn lemma_range_at(a: Weekday, b: Weekday, i: int)
    requires
        0 <= i < day_range(a, b).len(),
    ensures
        day_range(a, b)[i].number() == (a.number() + i) % 7,
        day_range(a, b).len() == (b.number() - a.number()) % 7 + 1,
{
}

/// Days are told apart by their numbers, of which there are seven.
proof fn lemma_numbers_tell_days_apart(a: Weekday, b: Weekday)
    ensures
        a == b <==> a.number() == b.number(),
        0 <= a.number() < 7,
        0 <= b.number() < 7,
{
}

/// How far a day is behind another, both by their numbers.
proof fn lemma_days_behind(first: int, day: int, i: int)
    requires
        0 <= first < 7,
        0 <= day < 7,
        0 <= i < 7,
    ensures
        (first + i) % 7 == day <==> i == (day - first) % 7,
        0 <= (day - first) % 7 < 7,
{
}

/// A range of days holds a day at one place at most, and at which.
proof fn lemma_range_place(a: Weekday, b: Weekday, day: Weekday, i: int)
    requires
        0 <= i < day_range(a, b).len(),
    ensures
        day_range(a, b)[i] == day <==> i == (day.number() - a.number()) % 7,
{
    lemma_range_at(a, b, i);
    lemma_numbers_tell_days_apart(a, b);
    lemma_numbers_tell_days_apart(day_range(a, b)[i], day);
    lemma_days_behind(a.number(), day.number(), i);
}

/// A range of days starts and ends with the days that it names, goes through
/// each day at most once, and holds the days that come no later after its first
/// than its last does.
pub proof fn range_of_days(a: Weekday, b: Weekday, day: Weekday)
    ensures
        day_range(a, b).first() == a,
        day_range(a, b).last() == b,
        day_range(a, b).no_duplicates(),
        day_range(a, b).contains(day) <==> (day.number() - a.number()) % 7 <= (b.number()
            - a.number()) % 7,
{
    let days = day_range(a, b);
    lemma_range_at(a, b, 0);
    lemma_range_place(a, b, a, 0);
    lemma_range_place(a, b, b, days.len() - 1);
    assert forall|i: int, j: int| 0 <= i < j < days.len() implies days[i] != days[j] by {
        lemma_range_place(a, b, days[j], i);
        lemma_range_place(a, b, days[j], j);
    }
    let at = (day.number() - a.number()) % 7;
    if at < days.len() {
        lemma_range_place(a, b, day, at);
        assert(days[at] == day);
    }
    if days.contains(day) {
        let i = choose|i: int| 0 <= i < days.len() && days[i] == day;
        lemma_range_place(a, b, day, i);
    }
}

/// A rule that starts with its times is the same rule with `Mo-Su` before it.
pub proof fn times_alone_are_for_every_day(rule: Seq<char>)
    requires
        text::trimmed(rule).len() > 0,
        text::digit(text::trimmed(rule)[0]),
    ensures
        days_and_times("Mo-Su "@ + text::trimmed(rule)) == days_and_times(rule),
        forall|day: Weekday| #[trigger] days_of("Mo-Su"@).unwrap().contains(day),
        days_of("Mo-Su"@) is Some,
{
    let r = text::trimmed(rule);
    let whole = "Mo-Su "@ + r;
    reveal_strlit("Mo-Su ");
    reveal_strlit("Mo-Su");
    text::trimmed_ends(rule);
    text::trim_is_idempotent(rule);
    assert(whole.first() == 'M');
    assert(whole.last() == r.last());
    assert(text::trimmed(whole) == whole);
    assert forall|i: int| 0 <= i < 6 implies !is_a_digit()(#[trigger] whole[i]) by {
        assert(whole[i] == "Mo-Su "@[i]);
    }
    assert(whole[6] == r[0]);
    text::lemma_first_where_is(whole, is_a_digit(), 6);
    assert(whole.take(6) == Seq::<char>::empty() + "Mo-Su"@ + seq![' ']);
    text::padding_is_trimmed(Seq::empty(), "Mo-Su"@, seq![' ']);
    assert(text::trimmed("Mo-Su"@) == "Mo-Su"@);
    assert(whole.skip(6) == r);
    text::lemma_first_where_is(r, is_a_digit(), 0);
    lemma_whole_week();
}

/// `Mo-Su` names every day.
proof fn lemma_whole_week()
    ensures
        days_of("Mo-Su"@) == Some(day_range(Weekday::Mon, Weekday::Sun)),
        forall|day: Weekday| #[trigger]
            day_range(Weekday::Mon, Weekday::Sun).contains(day),
{
    let s = "Mo-Su"@;
    reveal_strlit("Mo-Su");
    reveal_strlit("Mo");
    reveal_strlit("Tu");
    reveal_strlit("We");
    reveal_strlit("Th");
    reveal_strlit("Fr");
    reveal_strlit("Sa");
    reveal_strlit("Su");
    text::lemma_first_where_is(s, text::is_char(','), 5);
    text::lemma_first_where_is(s, text::is_char('-'), 2);
    assert(s.take(2) == "Mo"@);
    assert(s.skip(3) == "Su"@);
    assert(text::trimmed(s) == s);
    assert(text::trimmed("Mo"@) == "Mo"@);
    assert(text::trimmed("Su"@) == "Su"@);
    let items = text::parts(s, ',');
    assert(items == seq![s]);
    assert(items_days(items.drop_first()) == Some(Seq::<Weekday>::empty()));
    let days = day_range(Weekday::Mon, Weekday::Sun);
    assert(days + Seq::<Weekday>::empty() == days);
    assert forall|day: Weekday| #[trigger] days.contains(day) by {
        range_of_days(Weekday::Mon, Weekday::Sun, day);
    }
}

} // verus!
