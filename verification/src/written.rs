//! Opening hours as they are written, with lists of days and with any spacing,
//! and the law that reading them says of every moment what they say.

use crate::clock::Weekday;
use crate::hours;
use crate::schedule;
use crate::text;
use vstd::prelude::*;

verus! {

/// White space that may stand round the separators.
pub ghost struct Spaces {
    pub before_comma: Seq<char>,
    pub after_comma: Seq<char>,
    pub before_semicolon: Seq<char>,
    pub after_semicolon: Seq<char>,
    pub before_dash: Seq<char>,
    pub after_dash: Seq<char>,
    pub before_times: Seq<char>,
}

impl Spaces {
    /// Whether all of it is white space.
    pub open spec fn wf(self) -> bool {
        &&& text::all_white(self.before_comma)
        &&& text::all_white(self.after_comma)
        &&& text::all_white(self.before_semicolon)
        &&& text::all_white(self.after_semicolon)
        &&& text::all_white(self.before_dash)
        &&& text::all_white(self.after_dash)
        &&& text::all_white(self.before_times)
    }

    /// A comma with the space round it.
    pub open spec fn comma(self) -> Seq<char> {
        self.before_comma + seq![','] + self.after_comma
    }

    /// A semicolon with the space round it.
    pub open spec fn semicolon(self) -> Seq<char> {
        self.before_semicolon + seq![';'] + self.after_semicolon
    }

    /// A dash with the space round it.
    pub open spec fn dash(self) -> Seq<char> {
        self.before_dash + seq!['-'] + self.after_dash
    }
}

/// An item of a list of days: a day alone, or the days from one to the next
/// other, both included and round the end of the week.
pub ghost enum Days {
    One(Weekday),
    Range(Weekday, Weekday),
}

impl Days {
    /// Whether the item names a day: counted from its first day, the day comes no
    /// later than its last.
    pub open spec fn names(self, day: Weekday) -> bool {
        match self {
            Days::One(only) => day == only,
            Days::Range(first, last) => (day.number() - first.number()) % 7 <= (last.number()
                - first.number()) % 7,
        }
    }

    /// The item as it is written.
    pub open spec fn text(self, spaces: Spaces) -> Seq<char> {
        match self {
            Days::One(only) => schedule::day_name(only),
            Days::Range(first, last) => schedule::day_name(first) + spaces.dash()
                + schedule::day_name(last),
        }
    }
}

/// A time of up to 48 hours, whose hour may be written with one digit.
pub ghost struct Time {
    pub hour: int,
    pub minute: int,
    pub short: bool,
}

impl Time {
    /// Whether the time has a written form.
    pub open spec fn wf(self) -> bool {
        0 <= self.hour <= 48 && 0 <= self.minute <= 59 && (self.short ==> self.hour <= 9)
    }

    /// The minutes since midnight.
    pub open spec fn minutes(self) -> int {
        self.hour * 60 + self.minute
    }

    /// The hour as it is written.
    pub open spec fn hour_text(self) -> Seq<char> {
        if self.short {
            seq![schedule::digit_char(self.hour)]
        } else {
            seq![schedule::digit_char(self.hour / 10), schedule::digit_char(self.hour % 10)]
        }
    }

    /// The time as it is written.
    pub open spec fn text(self) -> Seq<char> {
        self.hour_text() + seq![':'] + seq![
            schedule::digit_char(self.minute / 10),
            schedule::digit_char(self.minute % 10),
        ]
    }
}

/// The time from one time, which is in it, to another, which is not.
pub ghost struct Interval {
    pub from: Time,
    pub to: Time,
}

impl Interval {
    /// Whether the interval has a written form.
    pub open spec fn wf(self) -> bool {
        self.from.wf() && self.to.wf()
    }

    /// The interval as it is written.
    pub open spec fn text(self, spaces: Spaces) -> Seq<char> {
        self.from.text() + spaces.dash() + self.to.text()
    }
}

/// A rule: its days, or every day where it names none, and its times.
pub ghost struct Rule {
    pub days: Seq<Days>,
    pub intervals: Seq<Interval>,
}

impl Rule {
    /// Whether the rule has a written form.
    pub open spec fn wf(self) -> bool {
        self.intervals.len() > 0 && forall|j: int|
            0 <= j < self.intervals.len() ==> (#[trigger] self.intervals[j]).wf()
    }

    /// Whether the rule is for a day.
    pub open spec fn names(self, day: Weekday) -> bool {
        self.days.len() == 0 || exists|i: int|
            0 <= i < self.days.len() && (#[trigger] self.days[i]).names(day)
    }

    /// Whether the place is open at a minute of a day by this rule.
    pub open spec fn opens(self, day: Weekday, minute: int) -> bool {
        self.names(day) && exists|j: int|
            0 <= j < self.intervals.len() && (#[trigger] self.intervals[j]).from.minutes() <= minute
                < self.intervals[j].to.minutes()
    }

    /// The days as they are written.
    pub open spec fn days_text(self, spaces: Spaces) -> Seq<char> {
        text::join(Seq::new(self.days.len(), |i: int| self.days[i].text(spaces)), spaces.comma())
    }

    /// The times as they are written.
    pub open spec fn times_text(self, spaces: Spaces) -> Seq<char> {
        text::join(
            Seq::new(self.intervals.len(), |j: int| self.intervals[j].text(spaces)),
            spaces.comma(),
        )
    }

    /// The rule as it is written.
    pub open spec fn text(self, spaces: Spaces) -> Seq<char> {
        if self.days.len() == 0 {
            self.times_text(spaces)
        } else {
            self.days_text(spaces) + spaces.before_times + self.times_text(spaces)
        }
    }
}

/// Opening hours as they are written.
pub open spec fn hours_text(rules: Seq<Rule>, spaces: Spaces) -> Seq<char> {
    text::join(Seq::new(rules.len(), |k: int| rules[k].text(spaces)), spaces.semicolon())
}

/// Whether every character of a text is one of written opening hours other than
/// a separator of rules.
pub open spec fn is_plain(s: Seq<char>, digits: bool) -> bool {
    forall|i: int|
        0 <= i < s.len() ==> #[trigger] s[i] != ';' && (!digits ==> !text::digit(s[i]))
}

/// Whether a text starts and ends with characters that are no white space.
pub open spec fn has_ends(s: Seq<char>) -> bool {
    s.len() > 0 && !text::white_space(s.first()) && !text::white_space(s.last())
}

/// What is true of each of some texts and of their separator is true of the
/// whole.
proof fn lemma_join(pieces: Seq<Seq<char>>, sep: Seq<char>, digits: bool)
    requires
        pieces.len() > 0,
        forall|i: int|
            0 <= i < pieces.len() ==> has_ends(#[trigger] pieces[i]) && is_plain(
                pieces[i],
                digits,
            ),
        is_plain(sep, digits),
    ensures
        has_ends(text::join(pieces, sep)),
        is_plain(text::join(pieces, sep), digits),
        text::join(pieces, sep).first() == pieces[0].first(),
        text::join(pieces, sep).last() == pieces.last().last(),
        text::join(pieces, sep).len() >= pieces[0].len(),
    decreases pieces.len(),
{
    assert(has_ends(pieces[0]));
    if pieces.len() > 1 {
        let rest = pieces.drop_first();
        assert forall|i: int| 0 <= i < rest.len() implies has_ends(#[trigger] rest[i]) && is_plain(
            rest[i],
            digits,
        ) by {
            assert(rest[i] == pieces[i + 1]);
        }
        lemma_join(rest, sep, digits);
        let all = text::join(pieces, sep);
        let tail = text::join(rest, sep);
        let n = pieces[0].len() as int;
        let m = n + sep.len();
        assert(all == pieces[0] + sep + tail);
        assert(all.first() == pieces[0].first());
        assert(all.last() == tail.last());
        assert forall|i: int| 0 <= i < all.len() implies #[trigger] all[i] != ';' && (!digits
            ==> !text::digit(all[i])) by {
            if i < n {
                assert(all[i] == pieces[0][i]);
            } else if i < m {
                assert(all[i] == sep[i - n]);
            } else {
                assert(all[i] == tail[i - m]);
            }
        }
    }
}

/// A written time is read back.
pub proof fn time_is_read(t: Time)
    requires
        t.wf(),
    ensures
        hours::minute_of(t.text()) == Some(t.minutes()),
        has_ends(t.text()),
        is_plain(t.text(), true),
        text::free_of(t.text(), '-'),
        text::free_of(t.text(), ','),
        text::digit(t.text().first()),
        text::digit(t.text().last()),
        t.text().len() >= 4,
{
    let h = t.hour_text();
    let a = schedule::digit_char(t.minute / 10);
    let b = schedule::digit_char(t.minute % 10);
    let m = seq![a, b];
    assert(t.text() == h + seq![':'] + m);
    text::first_part(h, ':', m);
    let lone = seq![schedule::digit_char(if t.short { t.hour } else { t.hour / 10 })];
    text::integers_grow_by_digits(lone, schedule::digit_char(t.hour % 10));
    text::integers_grow_by_digits(lone, lone[0]);
    assert(h == lone || h == lone.push(schedule::digit_char(t.hour % 10)));
    text::integers_grow_by_digits(seq![a], b);
    text::integers_grow_by_digits(seq![a], a);
    assert(seq![a].push(b) == m);
}

/// A written interval is read back.
pub proof fn interval_is_read(interval: Interval, spaces: Spaces)
    requires
        interval.wf(),
        spaces.wf(),
    ensures
        hours::interval_of(interval.text(spaces)) == Some(
            (interval.from.minutes(), interval.to.minutes()),
        ),
        has_ends(interval.text(spaces)),
        is_plain(interval.text(spaces), true),
        text::free_of(interval.text(spaces), ','),
        text::digit(interval.text(spaces).first()),
        text::digit(interval.text(spaces).last()),
        interval.text(spaces).len() >= 9,
{
    let s = interval.text(spaces);
    let from = interval.from.text();
    let to = interval.to.text();
    let none: Seq<char> = Seq::empty();
    time_is_read(interval.from);
    time_is_read(interval.to);
    let a = from + spaces.before_dash;
    let b = spaces.after_dash + to;
    assert(s == a + seq!['-'] + b);
    assert forall|i: int| 0 <= i < a.len() implies #[trigger] a[i] != '-' by {
        if i < from.len() {
            assert(a[i] == from[i]);
        } else {
            assert(text::white_space(spaces.before_dash[i - from.len()]));
        }
    }
    text::first_part(a, '-', b);
    text::padding_is_trimmed(none, from, spaces.before_dash);
    text::padding_is_trimmed(spaces.after_dash, to, none);
    assert(none + from + spaces.before_dash == a);
    assert(spaces.after_dash + to + none == b);
    let c = text::trimming_takes_off_space(from);
    let c = text::trimming_takes_off_space(to);
    lemma_white(spaces.before_dash);
    lemma_white(spaces.after_dash);
    let n = a.len() as int;
    assert forall|i: int| 0 <= i < s.len() implies #[trigger] s[i] != ';' && s[i] != ',' by {
        if i < from.len() {
            assert(s[i] == from[i]);
        } else if i < n {
            assert(s[i] == spaces.before_dash[i - from.len()]);
        } else if n < i {
            if i <= n + spaces.after_dash.len() {
                assert(s[i] == spaces.after_dash[i - n - 1]);
            } else {
                assert(s[i] == to[i - n - 1 - spaces.after_dash.len()]);
            }
        }
    }
    assert(s.first() == from.first());
    assert(s.last() == to.last());
}

/// White space has no digit and no separator.
proof fn lemma_white(s: Seq<char>)
    requires
        text::all_white(s),
    ensures
        is_plain(s, false),
        text::free_of(s, ','),
        text::free_of(s, '-'),
{
    assert forall|i: int| 0 <= i < s.len() implies #[trigger] s[i] != ';' && !text::digit(s[i])
        && s[i] != ',' && s[i] != '-' by {
        assert(text::white_space(s[i]));
    }
}

/// A comma or a semicolon with space round it is plain but for itself.
proof fn lemma_separator(before: Seq<char>, after: Seq<char>)
    requires
        text::all_white(before),
        text::all_white(after),
    ensures
        is_plain(before + seq![','] + after, false),
{
    let s = before + seq![','] + after;
    lemma_white(before);
    lemma_white(after);
    let n = before.len() as int;
    assert forall|i: int| 0 <= i < s.len() implies #[trigger] s[i] != ';' && !text::digit(
        s[i],
    ) by {
        if i < n {
            assert(s[i] == before[i]);
        } else if i > n {
            assert(s[i] == after[i - n - 1]);
        }
    }
}

/// A written item of a list of days is read back.
pub proof fn item_is_read(item: Days, spaces: Spaces, day: Weekday)
    requires
        spaces.wf(),
    ensures
        hours::item_days(item.text(spaces)) is Some,
        hours::item_days(item.text(spaces))->Some_0.contains(day) <==> item.names(day),
        has_ends(item.text(spaces)),
        is_plain(item.text(spaces), false),
        text::free_of(item.text(spaces), ','),
{
    let s = item.text(spaces);
    let none: Seq<char> = Seq::empty();
    match item {
        Days::One(only) => {
            schedule::written_day_is_read(only);
            lemma_name(only);
            text::one_part(s, '-');
            let c = text::trimming_takes_off_space(s);
            let days = seq![only];
            assert(days[0] == only);
            assert(days.contains(only));
        },
        Days::Range(first, last) => {
            let x = schedule::day_name(first);
            let y = schedule::day_name(last);
            lemma_name(first);
            lemma_name(last);
            schedule::written_day_is_read(first);
            schedule::written_day_is_read(last);
            lemma_white(spaces.before_dash);
            lemma_white(spaces.after_dash);
            let a = x + spaces.before_dash;
            let b = spaces.after_dash + y;
            assert(s == a + seq!['-'] + b);
            let n = a.len() as int;
            assert forall|i: int| 0 <= i < a.len() implies #[trigger] a[i] != '-' by {
                if i < 2 {
                    assert(a[i] == x[i]);
                } else {
                    assert(a[i] == spaces.before_dash[i - 2]);
                }
            }
            assert forall|i: int| 0 <= i < s.len() implies #[trigger] s[i] != ';' && s[i] != ','
                && !text::digit(s[i]) by {
                if i < 2 {
                    assert(s[i] == x[i]);
                } else if i < n {
                    assert(s[i] == spaces.before_dash[i - 2]);
                } else if n < i {
                    if i <= n + spaces.after_dash.len() {
                        assert(s[i] == spaces.after_dash[i - n - 1]);
                    } else {
                        assert(s[i] == y[i - n - 1 - spaces.after_dash.len()]);
                    }
                }
            }
            assert(s.first() == x[0]);
            assert(s.last() == y[1]);
            text::first_part(a, '-', b);
            text::padding_is_trimmed(none, x, spaces.before_dash);
            text::padding_is_trimmed(spaces.after_dash, y, none);
            assert(none + x + spaces.before_dash == a);
            assert(spaces.after_dash + y + none == b);
            let c = text::trimming_takes_off_space(x);
            let c = text::trimming_takes_off_space(y);
            let c = text::trimming_takes_off_space(s);
            hours::range_of_days(first, last, day);
        },
    }
}

/// The name of a day is two letters.
proof fn lemma_name(day: Weekday)
    ensures
        has_ends(schedule::day_name(day)),
        is_plain(schedule::day_name(day), false),
        text::free_of(schedule::day_name(day), ','),
        text::free_of(schedule::day_name(day), '-'),
        schedule::day_name(day).len() == 2,
{
    schedule::written_day_is_read(day);
    let s = schedule::day_name(day);
    assert('A' <= s[0] <= 'z');
    assert('A' <= s[1] <= 'z');
    reveal_strlit("Mo");
    reveal_strlit("Tu");
    reveal_strlit("We");
    reveal_strlit("Th");
    reveal_strlit("Fr");
    reveal_strlit("Sa");
    reveal_strlit("Su");
}

/// What items that can be read, each by itself, name together.
proof fn lemma_items(items: Seq<Seq<char>>, day: Weekday)
    requires
        forall|i: int| 0 <= i < items.len() ==> hours::item_days(#[trigger] items[i]) is Some,
    ensures
        hours::items_days(items) is Some,
        hours::items_days(items)->Some_0.contains(day) <==> exists|i: int|
            0 <= i < items.len() && hours::item_days(#[trigger] items[i])->Some_0.contains(day),
    decreases items.len(),
{
    if items.len() > 0 {
        let rest = items.drop_first();
        assert forall|i: int| 0 <= i < rest.len() implies hours::item_days(
            #[trigger] rest[i],
        ) is Some by {
            assert(rest[i] == items[i + 1]);
        }
        lemma_items(rest, day);
        assert(hours::item_days(items[0]) is Some);
        let a = hours::item_days(items[0])->Some_0;
        let b = hours::items_days(rest)->Some_0;
        let all = a + b;
        if a.contains(day) {
            let k = choose|k: int| 0 <= k < a.len() && a[k] == day;
            assert(all[k] == day);
        }
        if b.contains(day) {
            let k = choose|k: int| 0 <= k < b.len() && b[k] == day;
            assert(all[k + a.len()] == day);
            let i = choose|i: int|
                0 <= i < rest.len() && hours::item_days(#[trigger] rest[i])->Some_0.contains(day);
            assert(hours::item_days(items[i + 1])->Some_0.contains(day));
        }
        if all.contains(day) {
            let k = choose|k: int| 0 <= k < all.len() && all[k] == day;
            if k < a.len() {
                assert(a[k] == day);
            } else {
                assert(b[k - a.len()] == day);
            }
        }
        if exists|i: int|
            0 <= i < items.len() && hours::item_days(#[trigger] items[i])->Some_0.contains(day) {
            let i = choose|i: int|
                0 <= i < items.len() && hours::item_days(#[trigger] items[i])->Some_0.contains(day);
            if i > 0 {
                assert(hours::item_days(rest[i - 1])->Some_0.contains(day));
            }
        }
    }
}

/// A list of days names a day exactly where one of its items does, whether that
/// is a day alone or a range, and wherever in the list it stands.
pub proof fn list_of_days_is_read(rule: Rule, spaces: Spaces, day: Weekday)
    requires
        spaces.wf(),
        rule.days.len() > 0,
    ensures
        hours::days_of(rule.days_text(spaces)) is Some,
        hours::days_of(rule.days_text(spaces))->Some_0.contains(day) <==> rule.names(day),
        has_ends(rule.days_text(spaces)),
        is_plain(rule.days_text(spaces), false),
{
    let pieces = Seq::new(rule.days.len(), |i: int| rule.days[i].text(spaces));
    let none: Seq<char> = Seq::empty();
    let s = rule.days_text(spaces);
    assert forall|i: int| 0 <= i < pieces.len() implies has_ends(#[trigger] pieces[i]) && is_plain(
        pieces[i],
        false,
    ) && text::free_of(pieces[i], ',') && hours::item_days(pieces[i]) is Some && (hours::item_days(
        pieces[i],
    )->Some_0.contains(day) <==> rule.days[i].names(day)) by {
        item_is_read(rule.days[i], spaces, day);
    }
    lemma_separator(spaces.before_comma, spaces.after_comma);
    lemma_join(pieces, spaces.comma(), false);
    text::joined_texts_are_parts(pieces, spaces.before_comma, ',', spaces.after_comma, none);
    assert(none + s == s);
    let items = text::parts(s, ',');
    assert forall|i: int| 0 <= i < items.len() implies hours::item_days(#[trigger] items[i])
        == hours::item_days(pieces[i]) by {
        assert(text::trimmed(items[i]) == text::trimmed(pieces[i]));
    }
    assert forall|i: int| 0 <= i < items.len() implies hours::item_days(
        #[trigger] items[i],
    ) is Some by {
        assert(hours::item_days(pieces[i]) is Some);
    }
    lemma_items(items, day);
    if rule.names(day) {
        let i = choose|i: int| 0 <= i < rule.days.len() && (#[trigger] rule.days[i]).names(day);
        assert(has_ends(pieces[i]));
        assert(hours::item_days(items[i])->Some_0.contains(day));
    }
    if exists|i: int|
        0 <= i < items.len() && hours::item_days(#[trigger] items[i])->Some_0.contains(day) {
        let i = choose|i: int|
            0 <= i < items.len() && hours::item_days(#[trigger] items[i])->Some_0.contains(day);
        assert(has_ends(pieces[i]));
        assert(rule.days[i].names(day));
    }
}

/// A list of times holds a minute exactly where one of its intervals does.
pub proof fn list_of_times_is_read(rule: Rule, spaces: Spaces, minute: int)
    requires
        spaces.wf(),
        rule.wf(),
    ensures
        hours::all_readable(text::parts(rule.times_text(spaces), ',')),
        hours::some_holds(text::parts(rule.times_text(spaces), ','), minute) <==> exists|j: int|
            0 <= j < rule.intervals.len() && (#[trigger] rule.intervals[j]).from.minutes() <= minute
                < rule.intervals[j].to.minutes(),
        has_ends(rule.times_text(spaces)),
        is_plain(rule.times_text(spaces), true),
        text::digit(rule.times_text(spaces).first()),
        text::digit(rule.times_text(spaces).last()),
        rule.times_text(spaces).len() >= 9,
{
    let pieces = Seq::new(rule.intervals.len(), |j: int| rule.intervals[j].text(spaces));
    let none: Seq<char> = Seq::empty();
    let s = rule.times_text(spaces);
    assert forall|i: int| 0 <= i < pieces.len() implies has_ends(#[trigger] pieces[i]) && is_plain(
        pieces[i],
        true,
    ) && text::free_of(pieces[i], ',') && text::digit(pieces[i].first()) && text::digit(
        pieces[i].last(),
    ) && pieces[i].len() >= 9 && hours::interval_of(text::trimmed(pieces[i])) == Some(
        (rule.intervals[i].from.minutes(), rule.intervals[i].to.minutes()),
    ) by {
        assert(rule.intervals[i].wf());
        interval_is_read(rule.intervals[i], spaces);
        let c = text::trimming_takes_off_space(pieces[i]);
    }
    lemma_separator(spaces.before_comma, spaces.after_comma);
    assert(has_ends(pieces[0]));
    assert(has_ends(pieces[pieces.len() - 1]));
    lemma_join(pieces, spaces.comma(), true);
    text::joined_texts_are_parts(pieces, spaces.before_comma, ',', spaces.after_comma, none);
    assert(none + s == s);
    let items = text::parts(s, ',');
    assert forall|i: int| 0 <= i < items.len() implies hours::interval_of(
        text::trimmed(#[trigger] items[i]),
    ) == Some((rule.intervals[i].from.minutes(), rule.intervals[i].to.minutes())) by {
        assert(text::trimmed(items[i]) == text::trimmed(pieces[i]));
    }
    if exists|j: int|
        0 <= j < rule.intervals.len() && (#[trigger] rule.intervals[j]).from.minutes() <= minute
            < rule.intervals[j].to.minutes() {
        let j = choose|j: int|
            0 <= j < rule.intervals.len() && (#[trigger] rule.intervals[j]).from.minutes() <= minute
                < rule.intervals[j].to.minutes();
        assert(hours::interval_holds(items[j], minute));
    }
    if hours::some_holds(items, minute) {
        let j = choose|j: int|
            0 <= j < items.len() && hours::interval_holds(#[trigger] items[j], minute);
        assert(rule.intervals[j].from.minutes() <= minute < rule.intervals[j].to.minutes());
    }
}

/// A written rule is read back.
pub proof fn rule_is_read(rule: Rule, spaces: Spaces, day: Weekday, minute: int)
    requires
        spaces.wf(),
        rule.wf(),
    ensures
        !hours::rule_is_foreign(rule.text(spaces)),
        hours::times_on(rule.text(spaces), day) == if rule.names(day) {
            Some(text::parts(rule.times_text(spaces), ','))
        } else {
            None
        },
        !hours::rule_unreadable(rule.text(spaces), day),
        hours::rule_holds(rule.text(spaces), day, minute) <==> rule.opens(day, minute),
        has_ends(rule.text(spaces)),
        is_plain(rule.text(spaces), true),
        rule.text(spaces).len() >= 9,
{
    let s = rule.text(spaces);
    let times = rule.times_text(spaces);
    list_of_times_is_read(rule, spaces, minute);
    let c = text::trimming_takes_off_space(times);
    if rule.days.len() == 0 {
        assert(s == times);
        assert(hours::is_a_digit()(s[0]));
        text::lemma_first_where_is(s, hours::is_a_digit(), 0);
        hours::times_alone_are_for_every_day(s);
        assert(hours::days_of("Mo-Su"@).unwrap().contains(day));
    } else {
        let days = rule.days_text(spaces);
        let gap = spaces.before_times;
        let none: Seq<char> = Seq::empty();
        list_of_days_is_read(rule, spaces, day);
        lemma_white(gap);
        let n = days.len() as int;
        let m = n + gap.len();
        assert(s == days + gap + times);
        assert(s.first() == days.first());
        assert(s.last() == times.last());
        let c = text::trimming_takes_off_space(s);
        assert forall|i: int| 0 <= i < m implies !hours::is_a_digit()(#[trigger] s[i]) by {
            if i < n {
                assert(s[i] == days[i]);
            } else {
                assert(s[i] == gap[i - n]);
            }
        }
        assert(s[m] == times[0]);
        text::lemma_first_where_is(s, hours::is_a_digit(), m);
        assert(s.take(m) == none + days + gap);
        assert(s.skip(m) == times);
        text::padding_is_trimmed(none, days, gap);
        let c = text::trimming_takes_off_space(days);
        assert forall|i: int| 0 <= i < s.len() implies #[trigger] s[i] != ';' by {
            if i < n {
                assert(s[i] == days[i]);
            } else if i < m {
                assert(s[i] == gap[i - n]);
            } else {
                assert(s[i] == times[i - m]);
            }
        }
    }
}

/// The rules of a written text are the written rules, each of which is read back.
pub proof fn rules_are_read(rules: Seq<Rule>, spaces: Spaces, day: Weekday, minute: int)
    requires
        spaces.wf(),
        rules.len() > 0,
        forall|k: int| 0 <= k < rules.len() ==> (#[trigger] rules[k]).wf(),
    ensures
        has_ends(hours_text(rules, spaces)),
        hours_text(rules, spaces).len() >= 9,
        ({
            let items = text::parts(hours_text(rules, spaces), ';');
            &&& items.len() == rules.len()
            &&& forall|k: int|
                0 <= k < items.len() ==> !hours::rule_unreadable(#[trigger] items[k], day) && (
                hours::rule_holds(items[k], day, minute) <==> rules[k].opens(day, minute))
        }),
{
    let pieces = Seq::new(rules.len(), |k: int| rules[k].text(spaces));
    let none: Seq<char> = Seq::empty();
    let s = hours_text(rules, spaces);
    assert forall|k: int| 0 <= k < pieces.len() implies has_ends(#[trigger] pieces[k])
        && text::free_of(pieces[k], ';') && pieces[k].len() >= 9 && !hours::rule_unreadable(
        pieces[k],
        day,
    ) && (hours::rule_holds(pieces[k], day, minute) <==> rules[k].opens(day, minute)) by {
        assert(rules[k].wf());
        rule_is_read(rules[k], spaces, day, minute);
    }
    assert(has_ends(pieces[0]));
    lemma_ends(pieces, spaces.semicolon());
    text::joined_texts_are_parts(
        pieces,
        spaces.before_semicolon,
        ';',
        spaces.after_semicolon,
        none,
    );
    assert(none + s == s);
    let items = text::parts(s, ';');
    assert forall|k: int| 0 <= k < items.len() implies !hours::rule_unreadable(
        #[trigger] items[k],
        day,
    ) && (hours::rule_holds(items[k], day, minute) <==> rules[k].opens(day, minute)) by {
        assert(text::trimmed(items[k]) == text::trimmed(pieces[k]));
    }
}

/// Written rules, each with any white space round it, say of a moment what the
/// rules say.
pub proof fn hours_are_read(rules: Seq<Rule>, spaces: Spaces, day: Weekday, minute: int)
    requires
        spaces.wf(),
        rules.len() > 0,
        forall|k: int| 0 <= k < rules.len() ==> (#[trigger] rules[k]).wf(),
    ensures
        hours::openness(hours_text(rules, spaces), day, minute) == if exists|k: int|
            0 <= k < rules.len() && (#[trigger] rules[k]).opens(day, minute) {
            hours::Openness::Open
        } else {
            hours::Openness::Closed
        },
{
    let s = hours_text(rules, spaces);
    rules_are_read(rules, spaces, day, minute);
    let c = text::trimming_takes_off_space(s);
    let items = text::parts(s, ';');
    assert(hours::rules_of(s) == items);
    hours::readable_rules_settle_the_day(items, day, minute);
    assert(!hours::is_word(s)) by {
        reveal_strlit("24/7");
        reveal_strlit("closed");
        reveal_strlit("off");
    }
    if exists|k: int| 0 <= k < rules.len() && (#[trigger] rules[k]).opens(day, minute) {
        let k = choose|k: int| 0 <= k < rules.len() && (#[trigger] rules[k]).opens(day, minute);
        assert(hours::rule_holds(items[k], day, minute));
    }
}

/// Texts with separators between them start with the first and end with the last.
proof fn lemma_ends(pieces: Seq<Seq<char>>, sep: Seq<char>)
    requires
        pieces.len() > 0,
        forall|i: int| 0 <= i < pieces.len() ==> has_ends(#[trigger] pieces[i]),
    ensures
        has_ends(text::join(pieces, sep)),
        text::join(pieces, sep).len() >= pieces[0].len(),
        text::join(pieces, sep).first() == pieces[0].first(),
    decreases pieces.len(),
{
    assert(has_ends(pieces[0]));
    if pieces.len() > 1 {
        let rest = pieces.drop_first();
        assert forall|i: int| 0 <= i < rest.len() implies has_ends(#[trigger] rest[i]) by {
            assert(rest[i] == pieces[i + 1]);
        }
        lemma_ends(rest, sep);
        let all = text::join(pieces, sep);
        assert(all.first() == pieces[0].first());
        assert(all.last() == text::join(rest, sep).last());
    }
}

} // verus!
