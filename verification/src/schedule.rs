//! The written form of a weekly schedule, and the law that reading a written
//! schedule says of every moment what the schedule says.

use crate::clock::Weekday;
use crate::hours;
use crate::text;
use vstd::prelude::*;

verus! {

/// The opening times of the days from `first` to the next `last`: pairs of
/// minutes of the day, of which the first is in and the second is out.
pub ghost struct DayRule {
    pub first: Weekday,
    pub last: Weekday,
    pub intervals: Seq<(int, int)>,
}

/// Whether `minute` can be written as a time of up to 48 hours.
pub open spec fn writable(minute: int) -> bool {
    0 <= minute <= 48 * 60 + 59
}

impl DayRule {
    /// Whether the rule has a written form.
    pub open spec fn wf(self) -> bool {
        self.intervals.len() > 0 && forall|j: int|
            0 <= j < self.intervals.len() ==> writable(#[trigger] self.intervals[j].0) && writable(
                self.intervals[j].1,
            )
    }

    /// Whether the place is open at a minute of a day by this rule.
    pub open spec fn opens(self, day: Weekday, minute: int) -> bool {
        hours::day_range(self.first, self.last).contains(day) && some_interval_holds(
            self.intervals,
            minute,
        )
    }
}

/// Whether one of the intervals holds a minute.
pub open spec fn some_interval_holds(intervals: Seq<(int, int)>, minute: int) -> bool {
    exists|j: int|
        0 <= j < intervals.len() && (#[trigger] intervals[j]).0 <= minute < intervals[j].1
}

/// Whether the place is open at a minute of a day by one of the rules.
pub open spec fn some_rule_opens(rules: Seq<DayRule>, day: Weekday, minute: int) -> bool {
    exists|k: int| 0 <= k < rules.len() && (#[trigger] rules[k]).opens(day, minute)
}

/// The two-letter name of a day.
pub open spec fn day_name(day: Weekday) -> Seq<char> {
    match day {
        Weekday::Mon => "Mo"@,
        Weekday::Tue => "Tu"@,
        Weekday::Wed => "We"@,
        Weekday::Thu => "Th"@,
        Weekday::Fri => "Fr"@,
        Weekday::Sat => "Sa"@,
        Weekday::Sun => "Su"@,
    }
}

/// The digit that writes `n`, from zero to nine.
pub open spec fn digit_char(n: int) -> char {
    ('0' as int + n) as char
}

/// A minute of the day as hours and minutes of two digits each.
pub open spec fn clock_text(minute: int) -> Seq<char> {
    seq![
        digit_char(minute / 600),
        digit_char(minute / 60 % 10),
        ':',
        digit_char(minute % 60 / 10),
        digit_char(minute % 10),
    ]
}

/// An interval as two times with `-` between them.
pub open spec fn interval_text(interval: (int, int)) -> Seq<char> {
    clock_text(interval.0) + seq!['-'] + clock_text(interval.1)
}

/// Intervals with commas between them.
pub open spec fn times_text(intervals: Seq<(int, int)>) -> Seq<char>
    decreases intervals.len(),
{
    if intervals.len() == 0 {
        Seq::empty()
    } else if intervals.len() == 1 {
        interval_text(intervals[0])
    } else {
        interval_text(intervals[0]) + seq![','] + times_text(intervals.drop_first())
    }
}

/// A day as its name, and a range of days as two names with `-` between them.
pub open spec fn days_text(first: Weekday, last: Weekday) -> Seq<char> {
    if first == last {
        day_name(first)
    } else {
        day_name(first) + seq!['-'] + day_name(last)
    }
}

/// A rule as its days, a space and its times.
pub open spec fn rule_text(rule: DayRule) -> Seq<char> {
    days_text(rule.first, rule.last) + seq![' '] + times_text(rule.intervals)
}

/// Rules with `; ` between them.
pub open spec fn schedule_text(rules: Seq<DayRule>) -> Seq<char>
    decreases rules.len(),
{
    if rules.len() == 0 {
        Seq::empty()
    } else if rules.len() == 1 {
        rule_text(rules[0])
    } else {
        rule_text(rules[0]) + seq![';', ' '] + schedule_text(rules.drop_first())
    }
}

/// Whether `c` does not occur in `s`.
pub open spec fn lacks(s: Seq<char>, c: char) -> bool {
    forall|i: int| 0 <= i < s.len() ==> #[trigger] s[i] != c
}

/// A text without the separator is its only part.
proof fn lemma_one_part(s: Seq<char>, sep: char)
    requires
        lacks(s, sep),
    ensures
        text::parts(s, sep) == seq![s],
{
    text::lemma_first_where_is(s, text::is_char(sep), s.len() as int);
}

/// What stands before the first separator is the first part.
proof fn lemma_first_part(s: Seq<char>, sep: char, rest: Seq<char>)
    requires
        lacks(s, sep),
    ensures
        text::parts(s + seq![sep] + rest, sep) == seq![s] + text::parts(rest, sep),
        text::cut_once(s + seq![sep] + rest, sep) == Some((s, rest)),
{
    let all = s + seq![sep] + rest;
    assert forall|i: int| 0 <= i < s.len() implies #[trigger] all[i] != sep by {
        assert(all[i] == s[i]);
    }
    text::lemma_first_where_is(all, text::is_char(sep), s.len() as int);
    assert(all.take(s.len() as int) == s);
    assert(all.skip(s.len() as int + 1) == rest);
}

/// Two digits write the number that they stand for.
proof fn lemma_two_digits(a: int, b: int)
    requires
        0 <= a <= 9,
        0 <= b <= 9,
    ensures
        text::integer_of(seq![digit_char(a), digit_char(b)]) == Some(a * 10 + b),
{
    let s = seq![digit_char(a), digit_char(b)];
    assert(s.drop_last() == seq![digit_char(a)]);
    assert(s.drop_last().drop_last() == Seq::<char>::empty());
    reveal_with_fuel(text::digits_value, 3);
    assert(text::all_digits(s));
}

/// A written time is read back.
pub proof fn written_time_is_read(minute: int)
    requires
        writable(minute),
    ensures
        hours::minute_of(clock_text(minute)) == Some(minute),
{
    let h = seq![digit_char(minute / 600), digit_char(minute / 60 % 10)];
    let m = seq![digit_char(minute % 60 / 10), digit_char(minute % 10)];
    assert(clock_text(minute) == h + seq![':'] + m);
    lemma_first_part(h, ':', m);
    assert(minute % 10 == minute % 60 % 10);
    lemma_two_digits(minute / 600, minute / 60 % 10);
    lemma_two_digits(minute % 60 / 10, minute % 10);
}

/// A written interval is read back.
pub proof fn written_interval_is_read(interval: (int, int))
    requires
        writable(interval.0),
        writable(interval.1),
    ensures
        hours::interval_of(text::trimmed(interval_text(interval))) == Some(interval),
{
    let s = interval_text(interval);
    let from = clock_text(interval.0);
    let to = clock_text(interval.1);
    assert(!text::white_space(s.first()));
    assert(s.last() == to.last());
    assert(text::trimmed(s) == s);
    assert(text::trimmed(from) == from);
    assert(text::trimmed(to) == to);
    lemma_first_part(from, '-', to);
    written_time_is_read(interval.0);
    written_time_is_read(interval.1);
}

/// A written list of intervals starts and ends with a digit and has no character
/// that separates rules.
proof fn lemma_times_text(intervals: Seq<(int, int)>)
    requires
        intervals.len() > 0,
        forall|j: int|
            0 <= j < intervals.len() ==> writable(#[trigger] intervals[j].0) && writable(
                intervals[j].1,
            ),
    ensures
        times_text(intervals).len() >= 11,
        text::digit(times_text(intervals).first()),
        text::digit(times_text(intervals).last()),
        lacks(times_text(intervals), ';'),
    decreases intervals.len(),
{
    let head = interval_text(intervals[0]);
    assert(head.first() == digit_char(intervals[0].0 / 600));
    assert(head.last() == digit_char(intervals[0].1 % 10));
    if intervals.len() > 1 {
        let rest = intervals.drop_first();
        assert forall|j: int| 0 <= j < rest.len() implies writable(#[trigger] rest[j].0)
            && writable(rest[j].1) by {
            assert(rest[j] == intervals[j + 1]);
        }
        lemma_times_text(rest);
        assert(times_text(intervals).first() == head.first());
        assert(times_text(intervals).last() == times_text(rest).last());
    }
}

/// The written intervals of a list.
pub open spec fn interval_texts(intervals: Seq<(int, int)>) -> Seq<Seq<char>> {
    Seq::new(intervals.len(), |j: int| interval_text(intervals[j]))
}

/// The parts of a written list of intervals are the written intervals.
proof fn lemma_times_parts(intervals: Seq<(int, int)>)
    requires
        intervals.len() > 0,
        forall|j: int|
            0 <= j < intervals.len() ==> writable(#[trigger] intervals[j].0) && writable(
                intervals[j].1,
            ),
    ensures
        text::parts(times_text(intervals), ',') == interval_texts(intervals),
    decreases intervals.len(),
{
    let head = interval_text(intervals[0]);
    assert(lacks(head, ','));
    if intervals.len() == 1 {
        lemma_one_part(head, ',');
    } else {
        let rest = intervals.drop_first();
        assert forall|j: int| 0 <= j < rest.len() implies writable(#[trigger] rest[j].0)
            && writable(rest[j].1) by {
            assert(rest[j] == intervals[j + 1]);
        }
        lemma_times_parts(rest);
        lemma_first_part(head, ',', times_text(rest));
        assert(interval_texts(intervals) == seq![head] + interval_texts(rest));
    }
}

/// A written list of intervals can be read and holds the minutes that its
/// intervals hold.
proof fn lemma_times_are_read(intervals: Seq<(int, int)>, minute: int)
    requires
        intervals.len() > 0,
        forall|j: int|
            0 <= j < intervals.len() ==> writable(#[trigger] intervals[j].0) && writable(
                intervals[j].1,
            ),
    ensures
        hours::all_readable(text::parts(times_text(intervals), ',')),
        hours::some_holds(text::parts(times_text(intervals), ','), minute) == some_interval_holds(
            intervals,
            minute,
        ),
{
    let items = interval_texts(intervals);
    lemma_times_parts(intervals);
    assert forall|j: int| 0 <= j < items.len() implies hours::interval_of(
        text::trimmed(#[trigger] items[j]),
    ) == Some(intervals[j]) by {
        assert(writable(intervals[j].0));
        written_interval_is_read(intervals[j]);
    }
    if some_interval_holds(intervals, minute) {
        let j = choose|j: int|
            0 <= j < intervals.len() && (#[trigger] intervals[j]).0 <= minute < intervals[j].1;
        assert(hours::interval_holds(items[j], minute));
    }
    if hours::some_holds(items, minute) {
        let j = choose|j: int|
            0 <= j < items.len() && hours::interval_holds(#[trigger] items[j], minute);
        assert(intervals[j].0 <= minute < intervals[j].1);
    }
}

/// The name of a day stands for that day, and is two letters.
pub proof fn written_day_is_read(day: Weekday)
    ensures
        hours::day_of(day_name(day)) == Some(day),
        day_name(day).len() == 2,
        forall|i: int| 0 <= i < 2 ==> 'A' <= #[trigger] day_name(day)[i] <= 'z',
{
    reveal_strlit("Mo");
    reveal_strlit("Tu");
    reveal_strlit("We");
    reveal_strlit("Th");
    reveal_strlit("Fr");
    reveal_strlit("Sa");
    reveal_strlit("Su");
    assert("Mo"@[0] != "Tu"@[0] && "Mo"@[0] != "We"@[0]);
    assert("Tu"@[1] != "Th"@[1]);
    assert("Sa"@[1] != "Su"@[1]);
    assert("Fr"@[0] == 'F');
}

/// What the written days of a rule look like.
proof fn lemma_days_text(first: Weekday, last: Weekday)
    ensures
        days_text(first, last).len() >= 2,
        forall|i: int|
            0 <= i < days_text(first, last).len() ==> #[trigger] days_text(first, last)[i] == '-'
                || 'A' <= days_text(first, last)[i] <= 'z',
        text::trimmed(days_text(first, last)) == days_text(first, last),
{
    let s = days_text(first, last);
    let a = day_name(first);
    let b = day_name(last);
    written_day_is_read(first);
    written_day_is_read(last);
    assert forall|i: int| 0 <= i < s.len() implies #[trigger] s[i] == '-' || 'A' <= s[i]
        <= 'z' by {
        if i < 2 {
            assert(s[i] == a[i]);
        } else if i > 2 {
            assert(s[i] == b[i - 3]);
        }
    }
    assert(s.first() == s[0]);
    assert(s.last() == s[s.len() - 1]);
}

/// The written days of a rule are read back.
pub proof fn written_days_are_read(first: Weekday, last: Weekday)
    ensures
        hours::days_of(days_text(first, last)) == Some(hours::day_range(first, last)),
{
    let s = days_text(first, last);
    let a = day_name(first);
    let b = day_name(last);
    written_day_is_read(first);
    written_day_is_read(last);
    lemma_days_text(first, last);
    lemma_days_text(first, first);
    lemma_days_text(last, last);
    assert(lacks(a, '-'));
    lemma_one_part(s, ',');
    if first == last {
        text::lemma_first_where_is(a, text::is_char('-'), 2);
        hours::range_of_days(first, last, first);
        assert(hours::day_range(first, last) == seq![first]);
    } else {
        lemma_first_part(a, '-', b);
    }
    let items = text::parts(s, ',');
    assert(hours::items_days(items.drop_first()) == Some(Seq::<Weekday>::empty()));
    let days = hours::day_range(first, last);
    assert(days + Seq::<Weekday>::empty() == days);
}

/// What a written rule looks like.
proof fn lemma_rule_text(rule: DayRule)
    requires
        rule.wf(),
    ensures
        rule_text(rule).len() >= 14,
        !text::white_space(rule_text(rule).first()),
        !text::white_space(rule_text(rule).last()),
        lacks(rule_text(rule), ';'),
        hours::days_and_times(rule_text(rule)) == Some(
            (days_text(rule.first, rule.last), times_text(rule.intervals)),
        ),
{
    let s = rule_text(rule);
    let d = days_text(rule.first, rule.last);
    let t = times_text(rule.intervals);
    let n = d.len() as int;
    lemma_days_text(rule.first, rule.last);
    lemma_times_text(rule.intervals);
    assert(s.first() == d[0]);
    assert(text::trimmed(d).first() == d[0]);
    text::trimmed_ends(d);
    assert(s.last() == t.last());
    assert(text::trimmed(s) == s);
    assert forall|i: int| 0 <= i < n + 1 implies !hours::is_a_digit()(#[trigger] s[i]) by {
        if i < n {
            assert(s[i] == d[i]);
        }
    }
    assert(s[n + 1] == t[0]);
    text::lemma_first_where_is(s, hours::is_a_digit(), n + 1);
    assert(s.take(n + 1) == Seq::<char>::empty() + d + seq![' ']);
    text::padding_is_trimmed(Seq::empty(), d, seq![' ']);
    assert(s.skip(n + 1) == t);
    assert(text::trimmed(t) == t);
    assert forall|i: int| 0 <= i < s.len() implies #[trigger] s[i] != ';' by {
        if i < n {
            assert(s[i] == d[i]);
        } else if i > n {
            assert(s[i] == t[i - n - 1]);
        }
    }
}

/// A written rule, with or without a space before it, can be read and says what
/// the rule says.
proof fn lemma_rule_is_read(pad: Seq<char>, rule: DayRule, day: Weekday, minute: int)
    requires
        rule.wf(),
        pad == Seq::<char>::empty() || pad == seq![' '],
    ensures
        !hours::rule_unreadable(pad + rule_text(rule), day),
        hours::rule_holds(pad + rule_text(rule), day, minute) == rule.opens(day, minute),
{
    let s = rule_text(rule);
    lemma_rule_text(rule);
    text::padding_is_trimmed(pad, s, Seq::empty());
    assert(pad + s + Seq::<char>::empty() == pad + s);
    assert(text::trimmed(s) == s);
    written_days_are_read(rule.first, rule.last);
    lemma_times_are_read(rule.intervals, minute);
}

/// What a written schedule looks like.
proof fn lemma_schedule_text(rules: Seq<DayRule>)
    requires
        rules.len() > 0,
        forall|k: int| 0 <= k < rules.len() ==> (#[trigger] rules[k]).wf(),
    ensures
        schedule_text(rules).len() >= 14,
        !text::white_space(schedule_text(rules).first()),
        !text::white_space(schedule_text(rules).last()),
    decreases rules.len(),
{
    lemma_rule_text(rules[0]);
    if rules.len() > 1 {
        let rest = rules.drop_first();
        assert forall|k: int| 0 <= k < rest.len() implies (#[trigger] rest[k]).wf() by {
            assert(rest[k] == rules[k + 1]);
        }
        lemma_schedule_text(rest);
        assert(schedule_text(rules).first() == rule_text(rules[0]).first());
        assert(schedule_text(rules).last() == schedule_text(rest).last());
    }
}

/// The written rules of a list, `pad` before the first and a space before each
/// of the others.
pub open spec fn rule_texts(pad: Seq<char>, rules: Seq<DayRule>) -> Seq<Seq<char>> {
    Seq::new(
        rules.len(),
        |k: int|
            if k == 0 {
                pad + rule_text(rules[k])
            } else {
                seq![' '] + rule_text(rules[k])
            },
    )
}

/// The parts of a written schedule are the written rules.
proof fn lemma_rules_parts(pad: Seq<char>, rules: Seq<DayRule>)
    requires
        rules.len() > 0,
        forall|k: int| 0 <= k < rules.len() ==> (#[trigger] rules[k]).wf(),
        pad == Seq::<char>::empty() || pad == seq![' '],
    ensures
        text::parts(pad + schedule_text(rules), ';') == rule_texts(pad, rules),
    decreases rules.len(),
{
    let head = pad + rule_text(rules[0]);
    lemma_rule_text(rules[0]);
    assert(lacks(head, ';')) by {
        assert forall|i: int| 0 <= i < head.len() implies #[trigger] head[i] != ';' by {
            if i >= pad.len() {
                assert(head[i] == rule_text(rules[0])[i - pad.len()]);
            }
        }
    }
    if rules.len() == 1 {
        lemma_one_part(head, ';');
        assert(rule_texts(pad, rules) == seq![head]);
    } else {
        let rest = rules.drop_first();
        assert forall|k: int| 0 <= k < rest.len() implies (#[trigger] rest[k]).wf() by {
            assert(rest[k] == rules[k + 1]);
        }
        let space = seq![' '];
        lemma_rules_parts(space, rest);
        lemma_first_part(head, ';', space + schedule_text(rest));
        assert(pad + schedule_text(rules) == head + seq![';'] + (space + schedule_text(rest)));
        assert(rule_texts(pad, rules) == seq![head] + rule_texts(space, rest));
    }
}

/// Reading a written schedule says of every moment what the schedule says: open
/// where one of its rules opens the place, and closed everywhere else.
pub proof fn written_schedule_is_read(rules: Seq<DayRule>, day: Weekday, minute: int)
    requires
        rules.len() > 0,
        forall|k: int| 0 <= k < rules.len() ==> (#[trigger] rules[k]).wf(),
    ensures
        hours::openness(schedule_text(rules), day, minute) == if some_rule_opens(
            rules,
            day,
            minute,
        ) {
            hours::Openness::Open
        } else {
            hours::Openness::Closed
        },
{
    let s = schedule_text(rules);
    let none: Seq<char> = Seq::empty();
    lemma_schedule_text(rules);
    assert(none + s == s);
    assert(text::trimmed(s) == s);
    reveal_strlit("24/7");
    reveal_strlit("closed");
    reveal_strlit("off");
    lemma_rules_parts(none, rules);
    let items = rule_texts(none, rules);
    assert forall|k: int| 0 <= k < items.len() implies !hours::rule_unreadable(
        #[trigger] items[k],
        day,
    ) && hours::rule_holds(items[k], day, minute) == rules[k].opens(day, minute) by {
        assert(rules[k].wf());
        lemma_rule_is_read(if k == 0 { none } else { seq![' '] }, rules[k], day, minute);
    }
    if some_rule_opens(rules, day, minute) {
        let k = choose|k: int| 0 <= k < rules.len() && (#[trigger] rules[k]).opens(day, minute);
        assert(hours::rule_holds(items[k], day, minute));
    }
    assert(hours::rules_of(s) == items);
    hours::readable_rules_settle_the_day(items, day, minute);
}

} // verus!
