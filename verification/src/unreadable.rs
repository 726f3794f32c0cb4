//! Laws of opening hours that are words or that cannot be read, stated on their
//! texts.

use crate::clock::Weekday;
use crate::hours;
use crate::hours::Openness;
use crate::rides;
use crate::schedule;
use crate::text;
use crate::written;
use vstd::prelude::*;

verus! {

/// Whether a text is one rule of a value: nothing, or a semicolon, stands before
/// it, and nothing, or a semicolon, behind it.
pub open spec fn is_rule_between(
    s: Seq<char>,
    before: Seq<char>,
    rule: Seq<char>,
    after: Seq<char>,
) -> bool {
    &&& s == before + rule + after
    &&& before.len() > 0 ==> before.last() == ';'
    &&& after.len() > 0 ==> after.first() == ';'
    &&& text::free_of(rule, ';')
}

/// A text that stands between semicolons is one of the rules.
proof fn lemma_rule_between(s: Seq<char>, before: Seq<char>, rule: Seq<char>, after: Seq<char>) -> (k:
    int)
    requires
        is_rule_between(s, before, rule, after),
    ensures
        0 <= k < text::parts(s, ';').len(),
        text::parts(s, ';')[k] == rule,
{
    let tail = rule + after;
    text::one_part(rule, ';');
    if after.len() > 0 {
        let rest = after.drop_first();
        assert(tail == rule + seq![';'] + rest);
        text::first_part(rule, ';', rest);
    } else {
        assert(tail == rule);
    }
    assert(text::parts(tail, ';')[0] == rule);
    if before.len() > 0 {
        let front = before.drop_last();
        assert(s == front + seq![';'] + tail);
        text::parts_of_both(front, ';', tail);
        let k = text::parts(front, ';').len() as int;
        assert(text::parts(s, ';')[k] == text::parts(tail, ';')[0]);
        k
    } else {
        assert(s == tail);
        0
    }
}

/// A value with a semicolon is no word.
proof fn lemma_semicolon_is_no_word(s: Seq<char>, i: int)
    requires
        written::has_ends(s),
        0 <= i < s.len(),
        s[i] == ';',
    ensures
        !hours::is_word(s),
{
    let ends = text::trimming_takes_off_space(s);
    reveal_strlit("24/7");
    reveal_strlit("closed");
    reveal_strlit("off");
    assert forall|w: Seq<char>| w == "24/7"@ || w == "closed"@ || w == "off"@ implies
        !#[trigger] text::lower_case_is(s, w) by {
        if text::lower_case_is(s, w) {
            assert(text::lowers_to(s[i], w[i]));
        }
    }
}

/// The words of public holidays, weeks, sunrise and sunset, and months.
pub open spec fn is_kind_word(w: Seq<char>) -> bool {
    ||| w == seq!['P', 'H']
    ||| w == seq!['w', 'e', 'e', 'k']
    ||| w == seq!['s', 'u', 'n', 'r', 'i', 's', 'e']
    ||| w == seq!['s', 'u', 'n', 's', 'e', 't']
    ||| w == seq!['J', 'a', 'n']
    ||| w == seq!['F', 'e', 'b']
    ||| w == seq!['M', 'a', 'r']
    ||| w == seq!['A', 'p', 'r']
    ||| w == seq!['M', 'a', 'y']
    ||| w == seq!['J', 'u', 'n']
    ||| w == seq!['J', 'u', 'l']
    ||| w == seq!['A', 'u', 'g']
    ||| w == seq!['S', 'e', 'p']
    ||| w == seq!['O', 'c', 't']
    ||| w == seq!['N', 'o', 'v']
    ||| w == seq!['D', 'e', 'c']
}

/// Those words are the ones that are looked for.
proof fn lemma_kind_word(w: Seq<char>) -> (i: int)
    requires
        is_kind_word(w),
    ensures
        0 <= i < hours::unhandled_words().len(),
        hours::unhandled_words()[i] == w,
{
    reveal_strlit("PH");
    reveal_strlit("week");
    reveal_strlit("sunrise");
    reveal_strlit("sunset");
    reveal_strlit("Jan");
    reveal_strlit("Feb");
    reveal_strlit("Mar");
    reveal_strlit("Apr");
    reveal_strlit("May");
    reveal_strlit("Jun");
    reveal_strlit("Jul");
    reveal_strlit("Aug");
    reveal_strlit("Sep");
    reveal_strlit("Oct");
    reveal_strlit("Nov");
    reveal_strlit("Dec");
    let all = hours::unhandled_words();
    assert(all[0] =~= seq!['P', 'H']);
    assert(all[1] =~= seq!['w', 'e', 'e', 'k']);
    assert(all[2] =~= seq!['s', 'u', 'n', 'r', 'i', 's', 'e']);
    assert(all[3] =~= seq!['s', 'u', 'n', 's', 'e', 't']);
    assert(all[4] =~= seq!['J', 'a', 'n']);
    assert(all[5] =~= seq!['F', 'e', 'b']);
    assert(all[6] =~= seq!['M', 'a', 'r']);
    assert(all[7] =~= seq!['A', 'p', 'r']);
    assert(all[8] =~= seq!['M', 'a', 'y']);
    assert(all[9] =~= seq!['J', 'u', 'n']);
    assert(all[10] =~= seq!['J', 'u', 'l']);
    assert(all[11] =~= seq!['A', 'u', 'g']);
    assert(all[12] =~= seq!['S', 'e', 'p']);
    assert(all[13] =~= seq!['O', 'c', 't']);
    assert(all[14] =~= seq!['N', 'o', 'v']);
    assert(all[15] =~= seq!['D', 'e', 'c']);
    choose|i: int| 0 <= i < all.len() && all[i] == w
}

/// A text in which one of those words stands, with no letter next to it, has an
/// unhandled word, wherever in the text that is.
pub proof fn such_words_are_found(a: Seq<char>, w: Seq<char>, b: Seq<char>)
    requires
        is_kind_word(w),
        a.len() > 0 ==> !text::letter(a.last()),
        b.len() > 0 ==> !text::letter(b.first()),
    ensures
        hours::has_unhandled_word(a + w + b),
{
    let i = lemma_kind_word(w);
    text::words_stand_alone(a, w, b);
    assert(text::has_word(a + w + b, hours::unhandled_words()[i]));
}

/// The first two letters of those words are no name of a day, and no start of a
/// value that is a word.
proof fn lemma_kind_word_starts(w: Seq<char>)
    requires
        is_kind_word(w),
    ensures
        w.len() >= 2,
        text::letter(w[0]),
        text::letter(w[1]),
        forall|i: int| 0 <= i < w.len() ==> text::letter(#[trigger] w[i]),
        hours::day_of(w.take(2)) is None,
        hours::day_of(w) is None,
        !text::lowers_to(w[1], 'f'),
        !text::lowers_to(w[1], 'l'),
        !text::lowers_to(w[1], '4'),
{
    reveal_strlit("Mo");
    reveal_strlit("Tu");
    reveal_strlit("We");
    reveal_strlit("Th");
    reveal_strlit("Fr");
    reveal_strlit("Sa");
    reveal_strlit("Su");
    let t = w.take(2);
    assert(t[0] == w[0] && t[1] == w[1]);
}

/// A value with a rule for public holidays, weeks, months, sunrise or sunset is
/// unknown at every moment, wherever in the value the rule stands, whatever
/// follows its word, and whatever the other rules say.
pub proof fn kinds_that_are_not_handled_are_unknown(
    s: Seq<char>,
    before: Seq<char>,
    pad: Seq<char>,
    w: Seq<char>,
    tail: Seq<char>,
    after: Seq<char>,
    day: Weekday,
    minute: int,
)
    requires
        written::has_ends(s),
        is_rule_between(s, before, pad + w + tail, after),
        text::all_white(pad),
        is_kind_word(w),
        tail.len() > 0 ==> !text::letter(tail.first()),
    ensures
        hours::openness(s, day, minute) == Openness::Unknown,
{
    let rule = pad + w + tail;
    let none: Seq<char> = Seq::empty();
    let k = lemma_rule_between(s, before, rule, after);
    let ends = text::trimming_takes_off_space(s);
    lemma_kind_word_starts(w);
    if pad.len() > 0 {
        assert(text::white_space(pad[pad.len() - 1]));
    }
    such_words_are_found(pad, w, tail);
    let body = w + tail;
    text::padding_is_trimmed(pad, body, none);
    assert(pad + body + none == rule);
    let t = text::trimmed(body);
    let e = text::trimming_takes_off_space(body);
    assert(body[0] == w[0] && body[1] == w[1]);
    assert(e.0.len() == 0) by {
        if e.0.len() > 0 {
            assert(body[0] == e.0[0]);
            assert(text::white_space(e.0[0]));
        }
    }
    assert(t.len() >= 2) by {
        if t.len() == 0 {
            assert(body[0] == e.1[0]);
            assert(text::white_space(e.1[0]));
        } else if t.len() == 1 {
            assert(body[1] == e.1[0]);
            assert(text::white_space(e.1[0]));
        }
    }
    assert(t[0] == body[0] && t[1] == body[1]);
    assert(t.take(2) == w.take(2));
    hours::rules_of_those_kinds_are_unhandled(rule, day);
    if before.len() > 0 {
        assert(s[before.len() - 1] == ';');
        lemma_semicolon_is_no_word(s, before.len() - 1);
    } else if after.len() > 0 {
        assert(s[rule.len() as int] == after[0]);
        lemma_semicolon_is_no_word(s, rule.len() as int);
    } else {
        assert(s == rule);
        assert(pad.len() == 0) by {
            if pad.len() > 0 {
                assert(s.first() == pad[0]);
                assert(text::white_space(pad[0]));
            }
        }
        assert(s[1] == w[1]);
        reveal_strlit("24/7");
        reveal_strlit("closed");
        reveal_strlit("off");
        if text::lower_case_is(s, "24/7"@) {
            assert(text::lowers_to(s[1], "24/7"@[1]));
        }
        if text::lower_case_is(s, "closed"@) {
            assert(text::lowers_to(s[1], "closed"@[1]));
        }
        if text::lower_case_is(s, "off"@) {
            assert(text::lowers_to(s[1], "off"@[1]));
        }
    }
    assert(hours::rule_unhandled(hours::rules_of(s)[k], day));
    hours::unhandled_rules_are_unknown(s, day, minute);
}

/// Whether a character is none of those with which times are written.
pub open spec fn is_strange(c: char) -> bool {
    !('0' <= c <= '9') && c != '+' && c != '-' && c != ':' && !text::white_space(c)
}

/// A character that is neither a digit, a sign nor a colon spoils a time, white
/// space too.
pub proof fn letters_write_no_time(s: Seq<char>, p: int)
    requires
        0 <= p < s.len(),
        is_strange(s[p]) || text::white_space(s[p]),
    ensures
        hours::minute_of(s) is None,
{
    text::lemma_first_where(s, text::is_char(':'));
    let at = text::first_of(s, ':');
    if at < s.len() {
        let h = s.take(at);
        let m = s.skip(at + 1);
        assert(s[at] == ':');
        if p < at {
            assert(h[p] == s[p]);
            text::other_characters_write_no_integer(h, p);
        } else {
            assert(m[p - at - 1] == s[p]);
            text::other_characters_write_no_integer(m, p - at - 1);
        }
    }
}

/// Trimming keeps every character that is no white space.
proof fn lemma_trimming_keeps_letters(s: Seq<char>, p: int) -> (q: int)
    requires
        0 <= p < s.len(),
        !text::white_space(s[p]),
    ensures
        0 <= q < text::trimmed(s).len(),
        text::trimmed(s)[q] == s[p],
{
    let e = text::trimming_takes_off_space(s);
    let t = text::trimmed(s);
    let n = e.0.len() as int;
    if p < n {
        assert(s[p] == e.0[p]);
        assert(text::white_space(e.0[p]));
    }
    if p >= n + t.len() {
        assert(s[p] == e.1[p - n - t.len()]);
        assert(text::white_space(e.1[p - n - t.len()]));
    }
    assert(s[p] == t[p - n]);
    p - n
}

/// An interval with a character that is none of those with which times are
/// written, such as `08:00-sunset` or `08:00|12:00`, cannot be read.
pub proof fn letters_write_no_interval(s: Seq<char>, p: int)
    requires
        0 <= p < s.len(),
        is_strange(s[p]),
    ensures
        !hours::interval_readable(s),
{
    let q = lemma_trimming_keeps_letters(s, p);
    let t = text::trimmed(s);
    text::lemma_first_where(t, text::is_char('-'));
    let at = text::first_of(t, '-');
    if at < t.len() {
        let a = t.take(at);
        let b = t.skip(at + 1);
        assert(t[at] == '-');
        if q < at {
            assert(a[q] == t[q]);
            let r = lemma_trimming_keeps_letters(a, q);
            letters_write_no_time(text::trimmed(a), r);
        } else {
            assert(b[q - at - 1] == t[q]);
            let r = lemma_trimming_keeps_letters(b, q - at - 1);
            letters_write_no_time(text::trimmed(b), r);
        }
    }
}

/// An interval without a dash, or without a colon, cannot be read.
pub proof fn intervals_have_a_dash_and_colons(s: Seq<char>)
    requires
        text::free_of(s, '-') || text::free_of(s, ':'),
    ensures
        !hours::interval_readable(s),
{
    let e = text::trimming_takes_off_space(s);
    let t = text::trimmed(s);
    let n = e.0.len() as int;
    assert forall|i: int| 0 <= i < t.len() implies #[trigger] t[i] == s[n + i] by {
    }
    if text::free_of(s, '-') {
        assert(text::free_of(t, '-'));
        text::one_part(t, '-');
    } else {
        text::lemma_first_where(t, text::is_char('-'));
        let at = text::first_of(t, '-');
        if at < t.len() {
            let a = t.take(at);
            let f = text::trimming_takes_off_space(a);
            let u = text::trimmed(a);
            assert forall|i: int| 0 <= i < u.len() implies #[trigger] u[i] != ':' by {
                assert(u[i] == a[f.0.len() + i]);
                assert(a[f.0.len() + i] == t[f.0.len() + i]);
                assert(t[f.0.len() + i] == s[n + f.0.len() + i]);
            }
            text::one_part(u, ':');
        }
    }
}

/// A time of 49 hours or more, or of 60 minutes or more, cannot be read.
pub proof fn times_have_limits(hour: int, minute: int)
    requires
        0 <= hour <= 99,
        0 <= minute <= 99,
    ensures
        hours::minute_of(
            seq![
                schedule::digit_char(hour / 10),
                schedule::digit_char(hour % 10),
                ':',
                schedule::digit_char(minute / 10),
                schedule::digit_char(minute % 10),
            ],
        ) == if hour <= 48 && minute <= 59 {
            Some(hour * 60 + minute)
        } else {
            None
        },
{
    let a = schedule::digit_char(hour / 10);
    let b = schedule::digit_char(hour % 10);
    let c = schedule::digit_char(minute / 10);
    let d = schedule::digit_char(minute % 10);
    let h = seq![a, b];
    let m = seq![c, d];
    assert(seq![a, b, ':', c, d] == h + seq![':'] + m);
    text::first_part(h, ':', m);
    text::integers_grow_by_digits(seq![a], b);
    text::integers_grow_by_digits(seq![a], a);
    text::integers_grow_by_digits(seq![c], d);
    text::integers_grow_by_digits(seq![c], c);
    assert(seq![a].push(b) == h);
    assert(seq![c].push(d) == m);
}

/// A rule with written days and any times: what its times on a day are.
proof fn lemma_days_before_times(
    rule: written::Rule,
    spaces: written::Spaces,
    times: Seq<char>,
    day: Weekday,
)
    requires
        spaces.wf(),
        rule.days.len() > 0,
        written::has_ends(times),
        text::digit(times.first()),
    ensures
        ({
            let s = rule.days_text(spaces) + spaces.before_times + times;
            &&& !hours::rule_is_foreign(s)
            &&& hours::times_on(s, day) == if rule.names(day) {
                Some(text::parts(times, ','))
            } else {
                None
            }
            &&& written::has_ends(s)
            &&& text::free_of(times, ';') ==> text::free_of(s, ';')
        }),
{
    let days = rule.days_text(spaces);
    let gap = spaces.before_times;
    let none: Seq<char> = Seq::empty();
    let s = days + gap + times;
    written::list_of_days_is_read(rule, spaces, day);
    let n = days.len() as int;
    let m = n + gap.len();
    assert(s.first() == days.first());
    assert(s.last() == times.last());
    let c = text::trimming_takes_off_space(s);
    let c = text::trimming_takes_off_space(times);
    let c = text::trimming_takes_off_space(days);
    assert forall|i: int| 0 <= i < m implies !hours::is_a_digit()(#[trigger] s[i]) && s[i]
        != ';' by {
        if i < n {
            assert(s[i] == days[i]);
        } else {
            assert(s[i] == gap[i - n]);
            assert(text::white_space(gap[i - n]));
        }
    }
    assert(s[m] == times[0]);
    text::lemma_first_where_is(s, hours::is_a_digit(), m);
    assert(s.take(m) == none + days + gap);
    assert(s.skip(m) == times);
    text::padding_is_trimmed(none, days, gap);
    if text::free_of(times, ';') {
        assert forall|i: int| 0 <= i < s.len() implies #[trigger] s[i] != ';' by {
            if i >= m {
                assert(s[i] == times[i - m]);
            }
        }
    }
}

/// A value of one rule is no word where it has letters, digits and nine
/// characters or more, and its one rule is itself.
proof fn lemma_one_rule(s: Seq<char>)
    requires
        written::has_ends(s),
        text::free_of(s, ';'),
    ensures
        hours::rules_of(s) == seq![s],
        s.len() > 6 ==> !hours::is_word(s),
{
    let c = text::trimming_takes_off_space(s);
    text::one_part(s, ';');
    reveal_strlit("24/7");
    reveal_strlit("closed");
    reveal_strlit("off");
}

/// A rule for written days whose first interval cannot be read, because it has a
/// strange character, no dash or no colon, is unknown on these days and closed on
/// the others.
pub proof fn unreadable_times_are_unknown_on_their_days(
    rule: written::Rule,
    spaces: written::Spaces,
    first: Seq<char>,
    rest: Seq<char>,
    p: int,
    day: Weekday,
    minute: int,
)
    requires
        spaces.wf(),
        rule.days.len() > 0,
        first.len() > 0,
        text::digit(first.first()),
        text::free_of(first, ','),
        text::free_of(first, ';'),
        rest.len() > 0 ==> rest.first() == ',',
        text::free_of(rest, ';'),
        written::has_ends(first + rest),
        ({
            ||| text::free_of(first, '-')
            ||| text::free_of(first, ':')
            ||| 0 <= p < first.len() && is_strange(first[p])
        }),
        (rule.days_text(spaces) + spaces.before_times + (first + rest)).len() > 6,
    ensures
        hours::openness(
            rule.days_text(spaces) + spaces.before_times + (first + rest),
            day,
            minute,
        ) == if rule.names(day) {
            Openness::Unknown
        } else {
            Openness::Closed
        },
{
    let times = first + rest;
    let s = rule.days_text(spaces) + spaces.before_times + times;
    assert(times.first() == first.first());
    assert forall|i: int| 0 <= i < times.len() implies #[trigger] times[i] != ';' by {
        if i < first.len() {
            assert(times[i] == first[i]);
        } else {
            assert(times[i] == rest[i - first.len()]);
        }
    }
    lemma_days_before_times(rule, spaces, times, day);
    lemma_one_rule(s);
    text::one_part(first, ',');
    if rest.len() > 0 {
        let others = rest.drop_first();
        assert(times == first + seq![','] + others);
        text::first_part(first, ',', others);
    } else {
        assert(times == first);
    }
    let intervals = text::parts(times, ',');
    assert(intervals[0] == first);
    if 0 <= p < first.len() && is_strange(first[p]) {
        letters_write_no_interval(first, p);
    } else {
        intervals_have_a_dash_and_colons(first);
    }
    assert(!hours::interval_readable(intervals[0]));
    let rules = hours::rules_of(s);
    assert(rules[0] == s);
    assert(rules.drop_first() == Seq::<Seq<char>>::empty());
    reveal_with_fuel(hours::rules_in_order, 2);
    if rule.names(day) {
        assert(hours::rule_verdict(s, day, minute) == Some(Openness::Unknown));
    } else {
        assert(!hours::rule_unreadable(rules[0], day));
        assert(!hours::some_unhandled(rules, day));
        assert(hours::rule_verdict(s, day, minute) is None);
    }
}

/// A rule for written days with an interval that has the word `sunrise` or
/// `sunset` is unknown on these days, wherever in the list the interval stands
/// and whatever the others hold.
pub proof fn sunsets_are_unknown_on_their_days(
    rule: written::Rule,
    spaces: written::Spaces,
    before: Seq<char>,
    a: Seq<char>,
    w: Seq<char>,
    b: Seq<char>,
    after: Seq<char>,
    day: Weekday,
    minute: int,
)
    requires
        spaces.wf(),
        rule.days.len() > 0,
        rule.names(day),
        w == seq!['s', 'u', 'n', 'r', 'i', 's', 'e'] || w == seq!['s', 'u', 'n', 's', 'e', 't'],
        a.len() > 0 && !text::letter(a.last()),
        b.len() > 0 ==> !text::letter(b.first()),
        text::free_of(a + w + b, ','),
        before.len() > 0 ==> before.last() == ',',
        after.len() > 0 ==> after.first() == ',',
        text::free_of(before + (a + w + b) + after, ';'),
        written::has_ends(before + (a + w + b) + after),
        text::digit((before + (a + w + b) + after).first()),
    ensures
        hours::openness(
            rule.days_text(spaces) + spaces.before_times + (before + (a + w + b) + after),
            day,
            minute,
        ) == Openness::Unknown,
{
    let interval = a + w + b;
    let times = before + interval + after;
    let head = rule.days_text(spaces) + spaces.before_times;
    let s = head + times;
    lemma_days_before_times(rule, spaces, times, day);
    lemma_one_rule(s);
    let intervals = text::parts(times, ',');
    let j = lemma_part_between(times, before, interval, after);
    assert(interval[a.len() as int] == w[0]);
    letters_write_no_interval(interval, a.len() as int);
    assert(!hours::all_readable(intervals)) by {
        assert(!hours::interval_readable(intervals[j]));
    }
    lemma_word_within(head, before, a, w, b, after);
    assert(s.len() > 6);
    let rules = hours::rules_of(s);
    assert(rules[0] == s);
    assert(hours::rule_unhandled(rules[0], day));
    hours::unhandled_rules_are_unknown(s, day, minute);
}

/// A word within an interval is a word of the whole.
proof fn lemma_word_within(
    head: Seq<char>,
    before: Seq<char>,
    a: Seq<char>,
    w: Seq<char>,
    b: Seq<char>,
    after: Seq<char>,
)
    requires
        is_kind_word(w),
        a.len() > 0 && !text::letter(a.last()),
        b.len() > 0 ==> !text::letter(b.first()),
        after.len() > 0 ==> after.first() == ',',
    ensures
        hours::has_unhandled_word(head + (before + (a + w + b) + after)),
{
    let front = head + before + a;
    let back = b + after;
    assert(head + (before + (a + w + b) + after) =~= front + w + back);
    assert(front.last() == a.last());
    if b.len() > 0 {
        assert(back.first() == b.first());
    } else if after.len() > 0 {
        assert(back.first() == after.first());
    }
    such_words_are_found(front, w, back);
}

/// A text that stands between commas is one of the parts.
proof fn lemma_part_between(s: Seq<char>, before: Seq<char>, part: Seq<char>, after: Seq<char>) -> (k:
    int)
    requires
        s == before + part + after,
        before.len() > 0 ==> before.last() == ',',
        after.len() > 0 ==> after.first() == ',',
        text::free_of(part, ','),
    ensures
        0 <= k < text::parts(s, ',').len(),
        text::parts(s, ',')[k] == part,
{
    let tail = part + after;
    text::one_part(part, ',');
    if after.len() > 0 {
        let rest = after.drop_first();
        assert(tail == part + seq![','] + rest);
        text::first_part(part, ',', rest);
    } else {
        assert(tail == part);
    }
    assert(text::parts(tail, ',')[0] == part);
    if before.len() > 0 {
        let front = before.drop_last();
        assert(s == front + seq![','] + tail);
        text::parts_of_both(front, ',', tail);
        let k = text::parts(front, ',').len() as int;
        assert(text::parts(s, ',')[k] == text::parts(tail, ',')[0]);
        k
    } else {
        assert(s == tail);
        0
    }
}

/// A value without a digit that is not blank, has more than semicolons, and is not
/// `closed` or `off` is unknown at every moment.
pub proof fn values_without_digits_are_unknown(s: Seq<char>, p: int, day: Weekday, minute: int)
    requires
        written::has_ends(s),
        forall|i: int| 0 <= i < s.len() ==> !('0' <= #[trigger] s[i] <= '9'),
        0 <= p < s.len(),
        s[p] != ';',
        !text::white_space(s[p]),
        !rides::same_but_for_capitals(s, seq!['c', 'l', 'o', 's', 'e', 'd']),
        !rides::same_but_for_capitals(s, seq!['o', 'f', 'f']),
    ensures
        hours::openness(s, day, minute) == Openness::Unknown,
{
    let c = text::trimming_takes_off_space(s);
    reveal_strlit("24/7");
    reveal_strlit("closed");
    reveal_strlit("off");
    assert("closed"@ =~= seq!['c', 'l', 'o', 's', 'e', 'd']);
    assert("off"@ =~= seq!['o', 'f', 'f']);
    rides::capitals_are_ignored(s, "closed"@);
    rides::capitals_are_ignored(s, "off"@);
    if text::lower_case_is(s, "24/7"@) {
        assert(text::lowers_to(s[0], "24/7"@[0]));
        assert(!('0' <= s[0] <= '9'));
    }
    lemma_rules_without_digits(s, p);
    let rules = text::parts(s, ';');
    assert forall|k: int| 0 <= k < rules.len() implies !hours::rule_opens(
        #[trigger] rules[k],
        day,
        minute,
    ) by {
        lemma_no_digits(rules[k]);
    }
    let k = choose|k: int|
        0 <= k < rules.len() && text::trimmed(#[trigger] rules[k]).len() > 0;
    lemma_no_digits(rules[k]);
    assert(hours::rule_is_foreign(rules[k]));
    hours::foreign_rules_are_unknown(s, day, minute, k);
}

/// A rule without a digit has no times.
proof fn lemma_no_digits(rule: Seq<char>)
    requires
        forall|i: int| 0 <= i < rule.len() ==> !text::digit(#[trigger] rule[i]),
    ensures
        hours::days_and_times(rule) is None,
{
    let e = text::trimming_takes_off_space(rule);
    let t = text::trimmed(rule);
    assert forall|i: int| 0 <= i < t.len() implies !hours::is_a_digit()(#[trigger] t[i]) by {
        assert(t[i] == rule[e.0.len() + i]);
    }
    text::lemma_first_where_is(t, hours::is_a_digit(), t.len() as int);
}

/// The rules of a text without digits have none, and one of them is not blank.
proof fn lemma_rules_without_digits(s: Seq<char>, p: int)
    requires
        forall|i: int| 0 <= i < s.len() ==> !text::digit(#[trigger] s[i]),
        0 <= p < s.len(),
        s[p] != ';',
        !text::white_space(s[p]),
    ensures
        forall|k: int, i: int|
            0 <= k < text::parts(s, ';').len() && 0 <= i < text::parts(s, ';')[k].len()
                ==> !text::digit(#[trigger] text::parts(s, ';')[k][i]),
        exists|k: int|
            0 <= k < text::parts(s, ';').len() && text::trimmed(
                #[trigger] text::parts(s, ';')[k],
            ).len() > 0,
    decreases s.len(),
{
    text::lemma_first_where(s, text::is_char(';'));
    let at = text::first_of(s, ';');
    let all = text::parts(s, ';');
    if at >= s.len() {
        assert(all == seq![s]);
        lemma_not_blank(s, p);
        assert(text::trimmed(all[0]).len() > 0);
    } else {
        let head = s.take(at);
        let tail = s.skip(at + 1);
        assert(s[at] == ';');
        assert(all == seq![head] + text::parts(tail, ';'));
        lemma_digitless_parts(tail);
        assert forall|k: int, i: int| 0 <= k < all.len() && 0 <= i < all[k].len() implies
            !text::digit(#[trigger] all[k][i]) by {
            if k == 0 {
                assert(all[k][i] == s[i]);
            } else {
                assert(all[k] == text::parts(tail, ';')[k - 1]);
                assert(!text::digit(text::parts(tail, ';')[k - 1][i]));
            }
        }
        if p < at {
            assert(head[p] == s[p]);
            lemma_not_blank(head, p);
            assert(text::trimmed(all[0]).len() > 0);
        } else {
            assert(tail[p - at - 1] == s[p]);
            assert forall|i: int| 0 <= i < tail.len() implies !text::digit(#[trigger] tail[i]) by {
                assert(tail[i] == s[at + 1 + i]);
            }
            lemma_rules_without_digits(tail, p - at - 1);
            let k = choose|k: int|
                0 <= k < text::parts(tail, ';').len() && text::trimmed(
                    #[trigger] text::parts(tail, ';')[k],
                ).len() > 0;
            assert(all[k + 1] == text::parts(tail, ';')[k]);
        }
    }
}

/// The parts of a text without digits have none.
proof fn lemma_digitless_parts(s: Seq<char>)
    requires
        forall|i: int| 0 <= i < s.len() ==> !text::digit(#[trigger] s[i]),
    ensures
        forall|k: int, i: int|
            0 <= k < text::parts(s, ';').len() && 0 <= i < text::parts(s, ';')[k].len()
                ==> !text::digit(#[trigger] text::parts(s, ';')[k][i]),
    decreases s.len(),
{
    text::lemma_first_where(s, text::is_char(';'));
    let at = text::first_of(s, ';');
    let all = text::parts(s, ';');
    if at >= s.len() {
        assert(all == seq![s]);
    } else {
        let tail = s.skip(at + 1);
        assert forall|i: int| 0 <= i < tail.len() implies !text::digit(#[trigger] tail[i]) by {
            assert(tail[i] == s[at + 1 + i]);
        }
        lemma_digitless_parts(tail);
        assert(all == seq![s.take(at)] + text::parts(tail, ';'));
        assert forall|k: int, i: int| 0 <= k < all.len() && 0 <= i < all[k].len() implies
            !text::digit(#[trigger] all[k][i]) by {
            if k == 0 {
                assert(all[k][i] == s[i]);
            } else {
                assert(all[k] == text::parts(tail, ';')[k - 1]);
                assert(!text::digit(text::parts(tail, ';')[k - 1][i]));
            }
        }
    }
}

/// A text with a character that is no white space is not blank.
proof fn lemma_not_blank(s: Seq<char>, p: int)
    requires
        0 <= p < s.len(),
        !text::white_space(s[p]),
    ensures
        text::trimmed(s).len() > 0,
{
    let e = text::trimming_takes_off_space(s);
    if text::trimmed(s).len() == 0 {
        if p < e.0.len() {
            assert(text::white_space(e.0[p]));
        } else {
            assert(text::white_space(e.1[p - e.0.len()]));
        }
    }
}

/// `24/7` is open at every moment, and `closed` and `off` are closed, in capitals
/// or not and with any white space round them; a blank value is unknown.
pub proof fn words_say_what_they_say(
    before: Seq<char>,
    s: Seq<char>,
    after: Seq<char>,
    day: Weekday,
    minute: int,
)
    requires
        text::all_white(before),
        text::all_white(after),
    ensures
        s == seq!['2', '4', '/', '7'] ==> hours::openness(before + s + after, day, minute)
            == Openness::Open,
        rides::same_but_for_capitals(s, seq!['c', 'l', 'o', 's', 'e', 'd']) ==> hours::openness(
            before + s + after,
            day,
            minute,
        ) == Openness::Closed,
        rides::same_but_for_capitals(s, seq!['o', 'f', 'f']) ==> hours::openness(
            before + s + after,
            day,
            minute,
        ) == Openness::Closed,
        s.len() == 0 ==> hours::openness(before + s + after, day, minute) == Openness::Unknown,
{
    reveal_strlit("24/7");
    reveal_strlit("closed");
    reveal_strlit("off");
    assert("24/7"@ =~= seq!['2', '4', '/', '7']);
    assert("closed"@ =~= seq!['c', 'l', 'o', 's', 'e', 'd']);
    assert("off"@ =~= seq!['o', 'f', 'f']);
    rides::capitals_are_ignored(s, "closed"@);
    rides::capitals_are_ignored(s, "off"@);
    text::padding_is_trimmed(before, s, after);
    if rides::same_but_for_capitals(s, "closed"@) || rides::same_but_for_capitals(s, "off"@) {
        let last = s.len() - 1;
        let w = if s.len() == 6 {
            "closed"@
        } else {
            "off"@
        };
        assert(rides::is_letter_but_for_capitals(s[0], w[0]));
        assert(rides::is_letter_but_for_capitals(s[last], w[last]));
        let e = text::trimming_takes_off_space(s);
        if text::lower_case_is(s, "24/7"@) {
            assert(false);
        }
    }
    if s == "24/7"@ {
        let e = text::trimming_takes_off_space(s);
    }
}

/// A blank rule says nothing: with it or without it a value that has other rules
/// says the same.
pub proof fn blank_rules_say_nothing(
    a: Seq<char>,
    blank: Seq<char>,
    b: Seq<char>,
    day: Weekday,
    minute: int,
)
    requires
        text::all_white(blank),
        written::has_ends(a + seq![';'] + b),
    ensures
        hours::openness(a + seq![';'] + blank + seq![';'] + b, day, minute) == hours::openness(
            a + seq![';'] + b,
            day,
            minute,
        ),
{
    let s = a + seq![';'] + b;
    let t = a + seq![';'] + blank + seq![';'] + b;
    let none: Seq<char> = Seq::empty();
    let rest = blank + seq![';'] + b;
    assert(t == a + seq![';'] + rest);
    assert(t.first() == s.first()) by {
        if a.len() == 0 {
            assert(s[0] == ';');
            assert(t[0] == ';');
        } else {
            assert(s[0] == a[0] && t[0] == a[0]);
        }
    }
    assert(t.last() == s.last()) by {
        if b.len() == 0 {
            assert(s[s.len() - 1] == ';');
            assert(t[t.len() - 1] == ';');
        } else {
            assert(s[s.len() - 1] == b[b.len() - 1]);
            assert(t[t.len() - 1] == b[b.len() - 1]);
        }
    }
    let c = text::trimming_takes_off_space(s);
    let c = text::trimming_takes_off_space(t);
    assert(s[a.len() as int] == ';');
    assert(t[a.len() as int] == ';');
    lemma_semicolon_is_no_word(s, a.len() as int);
    lemma_semicolon_is_no_word(t, a.len() as int);
    text::parts_of_both(a, ';', b);
    text::parts_of_both(a, ';', rest);
    assert forall|i: int| 0 <= i < blank.len() implies #[trigger] blank[i] != ';' by {
        assert(text::white_space(blank[i]));
    }
    text::first_part(blank, ';', b);
    let x = text::parts(a, ';');
    let y = text::parts(b, ';');
    assert(hours::rules_of(s) == x + y);
    assert(hours::rules_of(t) == x + (seq![blank] + y));
    text::padding_is_trimmed(blank, none, none);
    assert(blank + none + none == blank);
    lemma_blank_in_order(x, blank, y, day, minute);
    lemma_blank_is_handled(x, blank, y, day);
}

/// A blank rule settles nothing.
proof fn lemma_blank_in_order(
    x: Seq<Seq<char>>,
    blank: Seq<char>,
    y: Seq<Seq<char>>,
    day: Weekday,
    minute: int,
)
    requires
        text::trimmed(blank).len() == 0,
    ensures
        hours::rules_in_order(x + (seq![blank] + y), day, minute) == hours::rules_in_order(
            x + y,
            day,
            minute,
        ),
    decreases x.len(),
{
    let more = x + (seq![blank] + y);
    let less = x + y;
    if x.len() == 0 {
        assert(more.drop_first() == y);
        assert(less == y);
        assert(more[0] == blank);
    } else {
        lemma_blank_in_order(x.drop_first(), blank, y, day, minute);
        assert(more.drop_first() == x.drop_first() + (seq![blank] + y));
        assert(less.drop_first() == x.drop_first() + y);
        assert(more[0] == less[0]);
    }
}

/// A blank rule is of no kind that is not handled.
proof fn lemma_blank_is_handled(
    x: Seq<Seq<char>>,
    blank: Seq<char>,
    y: Seq<Seq<char>>,
    day: Weekday,
)
    requires
        text::trimmed(blank).len() == 0,
    ensures
        hours::some_unhandled(x + (seq![blank] + y), day) == hours::some_unhandled(x + y, day),
{
    let more = x + (seq![blank] + y);
    let less = x + y;
    let n = x.len() as int;
    assert(!hours::rule_unhandled(blank, day));
    if hours::some_unhandled(more, day) {
        let k = choose|k: int|
            0 <= k < more.len() && hours::rule_unhandled(#[trigger] more[k], day);
        if k < n {
            assert(less[k] == more[k]);
        } else {
            assert(k != n);
            assert(less[k - 1] == more[k]);
        }
    }
    if hours::some_unhandled(less, day) {
        let k = choose|k: int|
            0 <= k < less.len() && hours::rule_unhandled(#[trigger] less[k], day);
        if k < n {
            assert(more[k] == less[k]);
        } else {
            assert(more[k + 1] == less[k]);
        }
    }
}

/// A text that has an unhandled word has one of the words of those kinds, and no
/// other word makes it one.
pub proof fn only_such_words_are_found(s: Seq<char>)
    requires
        hours::has_unhandled_word(s),
    ensures
        exists|w: Seq<char>| is_kind_word(w) && #[trigger] text::has_word(s, w),
{
    let i = choose|i: int|
        0 <= i < hours::unhandled_words().len() && text::has_word(
            s,
            #[trigger] hours::unhandled_words()[i],
        );
    lemma_unhandled_words(i);
    assert(text::has_word(s, hours::unhandled_words()[i]));
}

/// The words that are looked for are those of these kinds.
proof fn lemma_unhandled_words(i: int)
    requires
        0 <= i < hours::unhandled_words().len(),
    ensures
        is_kind_word(hours::unhandled_words()[i]),
{
    reveal_strlit("PH");
    reveal_strlit("week");
    reveal_strlit("sunrise");
    reveal_strlit("sunset");
    reveal_strlit("Jan");
    reveal_strlit("Feb");
    reveal_strlit("Mar");
    reveal_strlit("Apr");
    reveal_strlit("May");
    reveal_strlit("Jun");
    reveal_strlit("Jul");
    reveal_strlit("Aug");
    reveal_strlit("Sep");
    reveal_strlit("Oct");
    reveal_strlit("Nov");
    reveal_strlit("Dec");
    let all = hours::unhandled_words();
    assert(all[0] =~= seq!['P', 'H']);
    assert(all[1] =~= seq!['w', 'e', 'e', 'k']);
    assert(all[2] =~= seq!['s', 'u', 'n', 'r', 'i', 's', 'e']);
    assert(all[3] =~= seq!['s', 'u', 'n', 's', 'e', 't']);
    assert(all[4] =~= seq!['J', 'a', 'n']);
    assert(all[5] =~= seq!['F', 'e', 'b']);
    assert(all[6] =~= seq!['M', 'a', 'r']);
    assert(all[7] =~= seq!['A', 'p', 'r']);
    assert(all[8] =~= seq!['M', 'a', 'y']);
    assert(all[9] =~= seq!['J', 'u', 'n']);
    assert(all[10] =~= seq!['J', 'u', 'l']);
    assert(all[11] =~= seq!['A', 'u', 'g']);
    assert(all[12] =~= seq!['S', 'e', 'p']);
    assert(all[13] =~= seq!['O', 'c', 't']);
    assert(all[14] =~= seq!['N', 'o', 'v']);
    assert(all[15] =~= seq!['D', 'e', 'c']);
}

/// What rules say in order, where others stand behind them.
proof fn lemma_behind(x: Seq<Seq<char>>, y: Seq<Seq<char>>, day: Weekday, minute: int)
    ensures
        hours::rules_in_order(x, day, minute) == Openness::Open ==> hours::rules_in_order(
            x + y,
            day,
            minute,
        ) == Openness::Open,
        hours::rules_in_order(x, day, minute) == Openness::Closed ==> hours::rules_in_order(
            x + y,
            day,
            minute,
        ) == hours::rules_in_order(y, day, minute),
    decreases x.len(),
{
    if x.len() == 0 {
        assert(x + y == y);
    } else {
        assert((x + y)[0] == x[0]);
        assert((x + y).drop_first() == x.drop_first() + y);
        lemma_behind(x.drop_first(), y, day, minute);
        if let Some(intervals) = hours::times_on(x[0], day) {
            lemma_intervals_are_never_closed(intervals, minute);
        }
    }
}

/// A list of intervals never settles that a place is closed.
proof fn lemma_intervals_are_never_closed(intervals: Seq<Seq<char>>, minute: int)
    ensures
        hours::intervals_verdict(intervals, minute) != Some(Openness::Closed),
    decreases intervals.len(),
{
    if intervals.len() > 0 {
        lemma_intervals_are_never_closed(intervals.drop_first(), minute);
    }
}

/// Behind written rules that open the place at a moment other rules may stand,
/// even such as cannot be read, and the place stays open; unless one of them has a
/// word of the kinds that are not handled.
pub proof fn open_places_stay_open(
    rules: Seq<written::Rule>,
    spaces: written::Spaces,
    tail: Seq<char>,
    i: int,
    day: Weekday,
    minute: int,
)
    requires
        spaces.wf(),
        rules.len() > 0,
        forall|k: int| 0 <= k < rules.len() ==> (#[trigger] rules[k]).wf(),
        0 <= i < rules.len(),
        rules[i].opens(day, minute),
        tail.len() > 0 ==> !text::white_space(tail.last()),
        forall|k: int, w: Seq<char>|
            0 <= k < text::parts(tail, ';').len() && is_kind_word(w) ==> !#[trigger] text::has_word(
                text::parts(tail, ';')[k],
                w,
            ),
    ensures
        hours::openness(written::hours_text(rules, spaces) + seq![';'] + tail, day, minute)
            == Openness::Open,
{
    let head = written::hours_text(rules, spaces);
    let s = head + seq![';'] + tail;
    lemma_written_and_tail(rules, spaces, tail, day, minute);
    let x = text::parts(head, ';');
    let y = text::parts(tail, ';');
    written::rules_are_read(rules, spaces, day, minute);
    assert(hours::rule_holds(x[i], day, minute));
    hours::readable_rules_settle_the_day(x, day, minute);
    lemma_behind(x, y, day, minute);
    assert(!hours::some_unhandled(x + y, day)) by {
        if hours::some_unhandled(x + y, day) {
            let k = choose|k: int|
                0 <= k < (x + y).len() && hours::rule_unhandled(#[trigger] (x + y)[k], day);
            if k < x.len() {
                assert((x + y)[k] == x[k]);
                assert(!hours::rule_unreadable(x[k], day));
            } else {
                let r = y[k - x.len()];
                assert((x + y)[k] == r);
                only_such_words_are_found(r);
                let w = choose|w: Seq<char>| is_kind_word(w) && #[trigger] text::has_word(r, w);
                assert(!text::has_word(y[k - x.len()], w));
            }
        }
    }
}

/// The rules of a written text with others behind it.
proof fn lemma_written_and_tail(
    rules: Seq<written::Rule>,
    spaces: written::Spaces,
    tail: Seq<char>,
    day: Weekday,
    minute: int,
)
    requires
        spaces.wf(),
        rules.len() > 0,
        forall|k: int| 0 <= k < rules.len() ==> (#[trigger] rules[k]).wf(),
        tail.len() > 0 ==> !text::white_space(tail.last()),
    ensures
        ({
            let head = written::hours_text(rules, spaces);
            let s = head + seq![';'] + tail;
            &&& !hours::is_word(s)
            &&& hours::rules_of(s) == text::parts(head, ';') + text::parts(tail, ';')
        }),
{
    let head = written::hours_text(rules, spaces);
    let s = head + seq![';'] + tail;
    written::rules_are_read(rules, spaces, day, minute);
    assert(s.first() == head.first());
    if tail.len() > 0 {
        assert(s.last() == tail.last());
    } else {
        assert(s.last() == ';');
    }
    let c = text::trimming_takes_off_space(s);
    assert(s[head.len() as int] == ';');
    lemma_semicolon_is_no_word(s, head.len() as int);
    text::parts_of_both(head, ';', tail);
}

/// Behind written rules that do not open the place at a moment the other rules
/// decide, as if they stood alone.
pub proof fn closed_places_go_by_what_follows(
    rules: Seq<written::Rule>,
    spaces: written::Spaces,
    tail: Seq<char>,
    day: Weekday,
    minute: int,
)
    requires
        spaces.wf(),
        rules.len() > 0,
        forall|k: int| 0 <= k < rules.len() ==> (#[trigger] rules[k]).wf(),
        forall|k: int| 0 <= k < rules.len() ==> !(#[trigger] rules[k]).opens(day, minute),
        tail.len() > 0 ==> !text::white_space(tail.last()),
    ensures
        hours::openness(written::hours_text(rules, spaces) + seq![';'] + tail, day, minute)
            == hours::openness(seq![';'] + tail, day, minute),
{
    let head = written::hours_text(rules, spaces);
    let none: Seq<char> = Seq::empty();
    let t = seq![';'] + tail;
    lemma_written_and_tail(rules, spaces, tail, day, minute);
    let x = text::parts(head, ';');
    let y = text::parts(tail, ';');
    written::rules_are_read(rules, spaces, day, minute);
    hours::readable_rules_settle_the_day(x, day, minute);
    lemma_behind(x, y, day, minute);
    assert(t.first() == ';');
    if tail.len() > 0 {
        assert(t.last() == tail.last());
    }
    let c = text::trimming_takes_off_space(t);
    assert(t[0] == ';');
    lemma_semicolon_is_no_word(t, 0);
    assert(t == none + seq![';'] + tail);
    text::first_part(none, ';', tail);
    let z = seq![none] + y;
    assert(hours::rules_of(t) == z);
    assert(text::trimmed(none).len() == 0);
    let nothing: Seq<Seq<char>> = Seq::empty();
    lemma_blank_in_order(nothing, none, y, day, minute);
    lemma_blank_is_handled(nothing, none, y, day);
    assert(nothing + (seq![none] + y) == z);
    assert(nothing + y == y);
    if hours::some_unhandled(x + y, day) {
        let k = choose|k: int|
            0 <= k < (x + y).len() && hours::rule_unhandled(#[trigger] (x + y)[k], day);
        if k < x.len() {
            assert((x + y)[k] == x[k]);
            assert(!hours::rule_unreadable(x[k], day));
        } else {
            assert((x + y)[k] == y[k - x.len()]);
        }
    }
    if hours::some_unhandled(y, day) {
        let k = choose|k: int| 0 <= k < y.len() && hours::rule_unhandled(#[trigger] y[k], day);
        assert((x + y)[k + x.len()] == y[k]);
    }
}

/// A list of days with an item that is no day and no range of days, such as
/// `Mo-Fr,PH` or `Mo,Xx`, names no days; so a rule for it cannot be read.
pub proof fn lists_with_another_item_name_no_days(
    before: Seq<char>,
    item: Seq<char>,
    after: Seq<char>,
)
    requires
        before.len() > 0 ==> before.last() == ',',
        after.len() > 0 ==> after.first() == ',',
        text::free_of(item, ','),
        text::free_of(item, '-'),
        forall|day: Weekday| text::trimmed(item) != #[trigger] schedule::day_name(day),
    ensures
        hours::days_of(before + item + after) is None,
{
    let s = before + item + after;
    let k = lemma_part_between(s, before, item, after);
    let e = text::trimming_takes_off_space(item);
    let t = text::trimmed(item);
    assert forall|i: int| 0 <= i < t.len() implies #[trigger] t[i] != '-' by {
        assert(t[i] == item[e.0.len() + i]);
    }
    text::one_part(t, '-');
    if let Some(day) = hours::day_of(t) {
        assert(t == schedule::day_name(day));
    }
    lemma_items_with_another(text::parts(s, ','), k);
}

/// Items of which one names no days name none together.
proof fn lemma_items_with_another(items: Seq<Seq<char>>, k: int)
    requires
        0 <= k < items.len(),
        hours::item_days(items[k]) is None,
    ensures
        hours::items_days(items) is None,
    decreases items.len(),
{
    if k > 0 {
        assert(items.drop_first()[k - 1] == items[k]);
        lemma_items_with_another(items.drop_first(), k - 1);
    }
}

/// A value whose list of days has an item that is no day and no range of days is
/// unknown at every moment.
pub proof fn other_items_are_unknown(
    before: Seq<char>,
    item: Seq<char>,
    after: Seq<char>,
    gap: Seq<char>,
    times: Seq<char>,
    day: Weekday,
    minute: int,
)
    requires
        before.len() > 0 ==> before.last() == ',',
        after.len() > 0 ==> after.first() == ',',
        text::free_of(item, ','),
        text::free_of(item, '-'),
        forall|d: Weekday| text::trimmed(item) != #[trigger] schedule::day_name(d),
        written::has_ends(before + item + after),
        written::is_plain(before + item + after, false),
        text::all_white(gap),
        written::has_ends(times),
        text::digit(times.first()),
        text::free_of(times, ';'),
        (before + item + after + gap + times).len() > 6,
    ensures
        hours::openness(before + item + after + gap + times, day, minute) == Openness::Unknown,
{
    let days = before + item + after;
    let s = days + gap + times;
    lemma_list_before_times(days, gap, times);
    lists_with_another_item_name_no_days(before, item, after);
    lemma_one_rule(s);
    assert(hours::rules_of(s)[0] == s);
    assert(hours::rule_is_foreign(s));
    hours::foreign_rules_are_unknown(s, day, minute, 0);
}

/// The days and the times of a text with a list of days before its times.
proof fn lemma_list_before_times(days: Seq<char>, gap: Seq<char>, times: Seq<char>)
    requires
        written::has_ends(days),
        written::is_plain(days, false),
        text::all_white(gap),
        written::has_ends(times),
        text::digit(times.first()),
        text::free_of(times, ';'),
    ensures
        hours::days_and_times(days + gap + times) == Some((days, times)),
        written::has_ends(days + gap + times),
        text::free_of(days + gap + times, ';'),
        text::trimmed(days + gap + times) == days + gap + times,
{
    let none: Seq<char> = Seq::empty();
    let s = days + gap + times;
    let n = days.len() as int;
    let m = n + gap.len();
    assert(s.first() == days.first());
    assert(s.last() == times.last());
    let c = text::trimming_takes_off_space(s);
    let c = text::trimming_takes_off_space(times);
    let c = text::trimming_takes_off_space(days);
    assert forall|i: int| 0 <= i < m implies !hours::is_a_digit()(#[trigger] s[i]) && s[i]
        != ';' by {
        if i < n {
            assert(s[i] == days[i]);
        } else {
            assert(s[i] == gap[i - n]);
            assert(text::white_space(gap[i - n]));
        }
    }
    assert(s[m] == times[0]);
    text::lemma_first_where_is(s, hours::is_a_digit(), m);
    assert(s.take(m) == none + days + gap);
    assert(s.skip(m) == times);
    text::padding_is_trimmed(none, days, gap);
    assert forall|i: int| 0 <= i < s.len() implies #[trigger] s[i] != ';' by {
        if i >= m {
            assert(s[i] == times[i - m]);
        }
    }
}

/// A value with a rule that has one of the words of the kinds that are not handled
/// among its days, such as `Mo-Fr,PH 08:00-12:00`, is unknown at every moment,
/// wherever in the value the rule stands and whatever the other rules say.
pub proof fn such_words_among_the_days_are_unknown(
    s: Seq<char>,
    pre: Seq<char>,
    post: Seq<char>,
    before: Seq<char>,
    w: Seq<char>,
    after: Seq<char>,
    gap: Seq<char>,
    times: Seq<char>,
    day: Weekday,
    minute: int,
)
    requires
        written::has_ends(s),
        s.len() > 6,
        is_rule_between(s, pre, before + w + after + gap + times, post),
        is_kind_word(w),
        before.len() > 0 ==> before.last() == ',',
        after.len() > 0 ==> after.first() == ',',
        written::has_ends(before + w + after),
        written::is_plain(before + w + after, false),
        text::all_white(gap),
        written::has_ends(times),
        text::digit(times.first()),
        text::free_of(times, ';'),
    ensures
        hours::openness(s, day, minute) == Openness::Unknown,
{
    let days = before + w + after;
    let rule = days + gap + times;
    lemma_kind_word_starts(w);
    lemma_list_before_times(days, gap, times);
    let c = text::trimming_takes_off_space(w);
    assert(w.first() == w[0] && w.last() == w[w.len() - 1]);
    assert(text::trimmed(w) == w);
    assert forall|d: Weekday| text::trimmed(w) != #[trigger] schedule::day_name(d) by {
        schedule::written_day_is_read(d);
    }
    assert(text::free_of(w, ',')) by {
        assert forall|i: int| 0 <= i < w.len() implies #[trigger] w[i] != ',' by {
            assert(text::letter(w[i]));
        }
    }
    assert(text::free_of(w, '-')) by {
        assert forall|i: int| 0 <= i < w.len() implies #[trigger] w[i] != '-' by {
            assert(text::letter(w[i]));
        }
    }
    lists_with_another_item_name_no_days(before, w, after);
    let back = after + gap + times;
    assert(rule == before + w + back);
    if after.len() > 0 {
        assert(back.first() == ',');
    } else if gap.len() > 0 {
        assert(back.first() == gap[0]);
        assert(text::white_space(gap[0]));
    } else {
        assert(back.first() == times.first());
    }
    such_words_are_found(before, w, back);
    assert(hours::rule_unhandled(rule, day));
    let k = lemma_rule_between(s, pre, rule, post);
    let c = text::trimming_takes_off_space(s);
    assert(hours::rules_of(s)[k] == rule);
    reveal_strlit("24/7");
    reveal_strlit("closed");
    reveal_strlit("off");
    hours::unhandled_rules_are_unknown(s, day, minute);
}

/// A time is two numbers with a colon between them, of up to 48 and up to 59, and
/// nothing else is one.
pub proof fn times_are_two_numbers(h: Seq<char>, m: Seq<char>)
    requires
        text::free_of(h, ':'),
    ensures
        hours::minute_of(h + seq![':'] + m) is Some <==> {
            &&& text::integer_of(h) is Some
            &&& text::integer_of(m) is Some
            &&& 0 <= text::integer_of(h)->Some_0 <= 48
            &&& 0 <= text::integer_of(m)->Some_0 <= 59
        },
        hours::minute_of(h + seq![':'] + m) is Some ==> hours::minute_of(h + seq![':'] + m)->Some_0
            == text::integer_of(h)->Some_0 * 60 + text::integer_of(m)->Some_0,
        hours::minute_of(h) is None,
{
    text::first_part(h, ':', m);
    text::one_part(h, ':');
}

/// An interval is two times with a dash between them, and white space round each,
/// and nothing else is one.
pub proof fn intervals_are_two_times(a: Seq<char>, b: Seq<char>)
    requires
        text::free_of(a, '-'),
    ensures
        ({
            let from = hours::minute_of(text::trimmed(a));
            let to = hours::minute_of(text::trimmed(b));
            let both = hours::interval_of(a + seq!['-'] + b);
            &&& both is Some <==> from is Some && to is Some
            &&& both is Some ==> both->Some_0 == (from->Some_0, to->Some_0)
        }),
        hours::interval_of(a) is None,
{
    text::first_part(a, '-', b);
    text::one_part(a, '-');
}

/// The names of the days are the seven with two letters, in these very letters.
pub proof fn days_have_one_name(s: Seq<char>, day: Weekday)
    ensures
        hours::day_of(s) == Some(day) <==> s == schedule::day_name(day),
        hours::day_of(s) is None <==> forall|d: Weekday| s != #[trigger] schedule::day_name(d),
        schedule::day_name(Weekday::Mon) == seq!['M', 'o'],
        schedule::day_name(Weekday::Tue) == seq!['T', 'u'],
        schedule::day_name(Weekday::Wed) == seq!['W', 'e'],
        schedule::day_name(Weekday::Thu) == seq!['T', 'h'],
        schedule::day_name(Weekday::Fri) == seq!['F', 'r'],
        schedule::day_name(Weekday::Sat) == seq!['S', 'a'],
        schedule::day_name(Weekday::Sun) == seq!['S', 'u'],
{
    schedule::written_day_is_read(day);
    reveal_strlit("Mo");
    reveal_strlit("Tu");
    reveal_strlit("We");
    reveal_strlit("Th");
    reveal_strlit("Fr");
    reveal_strlit("Sa");
    reveal_strlit("Su");
    assert("Mo"@ =~= seq!['M', 'o']);
    assert("Tu"@ =~= seq!['T', 'u']);
    assert("We"@ =~= seq!['W', 'e']);
    assert("Th"@ =~= seq!['T', 'h']);
    assert("Fr"@ =~= seq!['F', 'r']);
    assert("Sa"@ =~= seq!['S', 'a']);
    assert("Su"@ =~= seq!['S', 'u']);
    if let Some(d) = hours::day_of(s) {
        assert(s == schedule::day_name(d));
    } else {
        assert forall|d: Weekday| s != #[trigger] schedule::day_name(d) by {
            schedule::written_day_is_read(d);
        }
    }
}

/// The first rule of a value.
proof fn lemma_first_rule(s: Seq<char>, rule: Seq<char>, after: Seq<char>)
    requires
        is_rule_between(s, Seq::empty(), rule, after),
        written::has_ends(s),
    ensures
        hours::rules_of(s).len() > 0,
        hours::rules_of(s)[0] == rule,
{
    let c = text::trimming_takes_off_space(s);
    assert(s == rule + after);
    text::one_part(rule, ';');
    if after.len() > 0 {
        let rest = after.drop_first();
        assert(s == rule + seq![';'] + rest);
        text::first_part(rule, ';', rest);
    } else {
        assert(s == rule);
    }
}

/// A value that starts neither with a digit nor with the name of a day, and is no
/// word, is unknown at every moment, whatever follows.
pub proof fn other_starts_are_unknown(
    s: Seq<char>,
    rule: Seq<char>,
    after: Seq<char>,
    day: Weekday,
    minute: int,
)
    requires
        written::has_ends(s),
        is_rule_between(s, Seq::empty(), rule, after),
        rule.len() > 0,
        !('0' <= rule[0] <= '9'),
        rule.len() >= 2 ==> forall|d: Weekday| rule.take(2) != #[trigger] schedule::day_name(d),
        !rides::same_but_for_capitals(s, seq!['c', 'l', 'o', 's', 'e', 'd']),
        !rides::same_but_for_capitals(s, seq!['o', 'f', 'f']),
    ensures
        hours::openness(s, day, minute) == Openness::Unknown,
{
    lemma_first_rule(s, rule, after);
    assert(s == rule + after);
    assert(s[0] == rule[0]);
    assert(s.first() == rule[0]);
    let c = text::trimming_takes_off_space(s);
    lemma_not_blank(rule, 0);
    text::trimmed_is_a_start(rule);
    let t = text::trimmed(rule);
    assert(t[0] == rule[0]);
    if t.len() >= 2 {
        assert(t.take(2) == rule.take(2));
        days_have_one_name(t.take(2), day);
    }
    hours::rules_without_a_day_are_foreign(rule);
    reveal_strlit("24/7");
    reveal_strlit("closed");
    reveal_strlit("off");
    assert("closed"@ =~= seq!['c', 'l', 'o', 's', 'e', 'd']);
    assert("off"@ =~= seq!['o', 'f', 'f']);
    rides::capitals_are_ignored(s, "closed"@);
    rides::capitals_are_ignored(s, "off"@);
    if text::lower_case_is(s, "24/7"@) {
        assert(text::lowers_to(s[0], "24/7"@[0]));
    }
    hours::foreign_rules_are_unknown(s, day, minute, 0);
}

/// A value whose first rule has no digit and is not blank, such as `Su off; Mo
/// 08:00-12:00`, is unknown at every moment, where it has another rule.
pub proof fn first_rules_without_digits_are_unknown(
    s: Seq<char>,
    rule: Seq<char>,
    after: Seq<char>,
    p: int,
    day: Weekday,
    minute: int,
)
    requires
        written::has_ends(s),
        is_rule_between(s, Seq::empty(), rule, after),
        after.len() > 0,
        forall|i: int| 0 <= i < rule.len() ==> !('0' <= #[trigger] rule[i] <= '9'),
        0 <= p < rule.len(),
        !text::white_space(rule[p]),
    ensures
        hours::openness(s, day, minute) == Openness::Unknown,
{
    lemma_first_rule(s, rule, after);
    assert(s == rule + after);
    assert(s[rule.len() as int] == after[0]);
    lemma_semicolon_is_no_word(s, rule.len() as int);
    lemma_no_digits(rule);
    lemma_not_blank(rule, p);
    hours::foreign_rules_are_unknown(s, day, minute, 0);
}

/// A value that starts with times of which the first interval cannot be read,
/// because it has a strange character, no dash or no colon, is unknown at every
/// moment, whatever follows: so is `24/7; Mo off`, and `24h`.
pub proof fn unreadable_times_alone_are_unknown(
    s: Seq<char>,
    first: Seq<char>,
    rest: Seq<char>,
    after: Seq<char>,
    p: int,
    day: Weekday,
    minute: int,
)
    requires
        written::has_ends(s),
        is_rule_between(s, Seq::empty(), first + rest, after),
        first.len() > 0,
        '0' <= first[0] <= '9',
        text::free_of(first, ','),
        rest.len() > 0 ==> rest.first() == ',',
        written::has_ends(first + rest),
        s != seq!['2', '4', '/', '7'],
        ({
            ||| text::free_of(first, '-')
            ||| text::free_of(first, ':')
            ||| 0 <= p < first.len() && is_strange(first[p])
        }),
    ensures
        hours::openness(s, day, minute) == Openness::Unknown,
{
    let rule = first + rest;
    lemma_first_rule(s, rule, after);
    assert(s == rule + after);
    assert(s[0] == first[0]);
    assert(rule[0] == first[0]);
    let c = text::trimming_takes_off_space(s);
    let c = text::trimming_takes_off_space(rule);
    assert(hours::is_a_digit()(rule[0]));
    text::lemma_first_where_is(rule, hours::is_a_digit(), 0);
    hours::times_alone_are_for_every_day(rule);
    assert(hours::days_of("Mo-Su"@).unwrap().contains(day));
    text::one_part(first, ',');
    if rest.len() > 0 {
        let others = rest.drop_first();
        assert(rule == first + seq![','] + others);
        text::first_part(first, ',', others);
    } else {
        assert(rule == first);
    }
    let intervals = text::parts(rule, ',');
    assert(intervals[0] == first);
    if 0 <= p < first.len() && is_strange(first[p]) {
        letters_write_no_interval(first, p);
    } else {
        intervals_have_a_dash_and_colons(first);
    }
    assert(hours::times_on(rule, day) == Some(intervals));
    assert(hours::rule_verdict(rule, day, minute) == Some(Openness::Unknown));
    let rules = hours::rules_of(s);
    assert(hours::rules_in_order(rules, day, minute) == Openness::Unknown);
    lemma_no_word_by_its_start(s);
}

/// A value that starts with a digit is no word but `24/7`.
proof fn lemma_no_word_by_its_start(s: Seq<char>)
    requires
        written::has_ends(s),
        '0' <= s[0] <= '9',
        s != seq!['2', '4', '/', '7'],
    ensures
        !hours::is_word(s),
{
    let c = text::trimming_takes_off_space(s);
    reveal_strlit("24/7");
    reveal_strlit("closed");
    reveal_strlit("off");
    if text::lower_case_is(s, "24/7"@) {
        let w = "24/7"@;
        assert forall|i: int| 0 <= i < 4 implies s[i] == #[trigger] w[i] by {
            assert(text::lowers_to(s[i], w[i]));
        }
        assert(s =~= seq!['2', '4', '/', '7']);
    }
    if text::lower_case_is(s, "closed"@) {
        assert(text::lowers_to(s[0], "closed"@[0]));
    }
    if text::lower_case_is(s, "off"@) {
        assert(text::lowers_to(s[0], "off"@[0]));
    }
}

} // verus!
