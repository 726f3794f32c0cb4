//! Whether the times of a GPX document can be read without a panic.
//!
//! The `gpx` crate takes each time to UTC, and panics where that leads out of the
//! years from -9999 to 9999: a time of one of these two years whose offset leads
//! over the end of the year 9999, or over the start of the year -9999. A document
//! is plain where none of its times is such a one.

use vstd::prelude::*;

verus! {

/// The units of a document: its bytes or, behind a byte order mark for UTF-16,
/// the pairs of its bytes. An ASCII character is one unit of its own number, and
/// no other character has a unit that is an ASCII character.
pub open spec fn units_of(bytes: Seq<u8>) -> Seq<u32> {
    if bytes.len() >= 2 && bytes[0] == 0xfe && bytes[1] == 0xff {
        Seq::new(
            (bytes.len() / 2 - 1) as nat,
            |i: int| (bytes[2 * i + 2] * 256 + bytes[2 * i + 3]) as u32,
        )
    } else if bytes.len() >= 2 && bytes[0] == 0xff && bytes[1] == 0xfe {
        Seq::new(
            (bytes.len() / 2 - 1) as nat,
            |i: int| (bytes[2 * i + 3] * 256 + bytes[2 * i + 2]) as u32,
        )
    } else {
        Seq::new(bytes.len(), |i: int| bytes[i] as u32)
    }
}

/// Whether `c` stands at `k`.
pub open spec fn unit_is(s: Seq<u32>, k: int, c: char) -> bool {
    0 <= k < s.len() && s[k] == c as u32
}

/// Whether `word` stands at `k`.
pub open spec fn word_at(s: Seq<u32>, k: int, word: Seq<char>) -> bool {
    &&& 0 <= k
    &&& k + word.len() <= s.len()
    &&& forall|j: int| 0 <= j < word.len() ==> s[k + j] == #[trigger] word[j] as u32
}

/// The first position from `k` on at which `a` or `b` stands; the length where
/// there is none.
pub open spec fn first_from(s: Seq<u32>, k: int, a: char, b: char) -> int
    decreases s.len() - k,
{
    if k >= s.len() || unit_is(s, k, a) || unit_is(s, k, b) {
        k
    } else {
        first_from(s, k + 1, a, b)
    }
}

/// The value of a digit, in base ten or sixteen.
pub open spec fn digit_of(unit: u32, hex: bool) -> Option<int> {
    if '0' as u32 <= unit <= '9' as u32 {
        Some(unit - '0' as u32)
    } else if hex && 'a' as u32 <= unit <= 'f' as u32 {
        Some(unit - 'a' as u32 + 10)
    } else if hex && 'A' as u32 <= unit <= 'F' as u32 {
        Some(unit - 'A' as u32 + 10)
    } else {
        None
    }
}

/// The number that the digits from `k` to the next semicolon write behind those
/// that write `value`, and the position behind the semicolon; `None` where there
/// is something else, or a number that no character has.
pub open spec fn number_at(s: Seq<u32>, k: int, hex: bool, value: int) -> Option<(int, int)>
    decreases s.len() - k,
{
    if !(0 <= k < s.len()) {
        None
    } else if unit_is(s, k, ';') {
        Some((value, k + 1))
    } else {
        match digit_of(s[k], hex) {
            Some(d) => {
                let next = if hex {
                    value * 16 + d
                } else {
                    value * 10 + d
                };
                if next <= 0x10ffff {
                    number_at(s, k + 1, hex, next)
                } else {
                    None
                }
            },
            None => None,
        }
    }
}

/// The character that a reference by number writes, whose number starts at `k`,
/// and the position behind it.
pub open spec fn character_at(s: Seq<u32>, k: int) -> Option<(int, int)> {
    if unit_is(s, k, 'x') {
        number_at(s, k + 1, true, 0)
    } else {
        number_at(s, k, false, 0)
    }
}

/// Whether what stands from `k` to the closing quote of the value of an entity
/// cannot become markup: it has no `<` and refers to nothing but characters, of
/// which none is `<` or `&`.
pub open spec fn value_inert(s: Seq<u32>, k: int, quote: u32) -> bool
    decreases s.len() - k,
{
    if !(0 <= k < s.len()) || s[k] == quote {
        true
    } else if unit_is(s, k, '<') {
        false
    } else if unit_is(s, k, '&') {
        unit_is(s, k + 1, '#') && match character_at(s, k + 2) {
            Some((c, end)) => c != '<' as u32 && c != '&' as u32 && k < end <= s.len() && value_inert(
                s,
                end,
                quote,
            ),
            None => false,
        }
    } else {
        value_inert(s, k + 1, quote)
    }
}

/// Whether the entity that is declared at `k` cannot become markup.
pub open spec fn entity_inert(s: Seq<u32>, k: int) -> bool {
    let at = first_from(s, k, '"', '\'');
    at < s.len() ==> value_inert(s, at + 1, s[at])
}

/// Whether a unit is white space in XML.
pub open spec fn space_at(s: Seq<u32>, k: int) -> bool {
    unit_is(s, k, ' ') || unit_is(s, k, '\t') || unit_is(s, k, '\r') || unit_is(s, k, '\n')
}

/// Whether the name of an element may be `time` in a tag that begins, or has the
/// colon behind a prefix, at `k`: it ends with the tag, a slash or white space.
pub open spec fn time_tag_at(s: Seq<u32>, k: int) -> bool {
    &&& word_at(s, k, "<time"@) || word_at(s, k, ":time"@)
    &&& unit_is(s, k + 5, '>') || unit_is(s, k + 5, '/') || space_at(s, k + 5)
}

/// What a unit is part of, in a time element.
#[derive(Clone, Copy, Debug, PartialEq, Eq, Structural)]
pub enum Spot {
    /// The start tag.
    Tag,
    /// A value in the start tag, between quotes of this kind.
    Quoted(u32),
    /// The text.
    Text,
    /// A character section: text in which only its end is markup.
    Section,
    /// A comment.
    Comment,
    /// A processing instruction.
    Instruction,
}

/// What a unit leads to.
#[derive(Clone, Copy, Debug, PartialEq, Eq, Structural)]
pub enum Step {
    /// An entity, whose text is not known here.
    Unclear,
    /// There is no text that is read as a time: the element is empty, or the
    /// document is refused here.
    Nothing,
    /// The end of the element.
    Close,
    /// On to the unit that is so many further, with no text.
    Skip(usize, Spot),
    /// The same, with a character of text.
    Take(usize, u32, Spot),
    /// The same, and the text starts anew.
    Break(usize, Spot),
}

/// What a reference in the text at `k` leads to.
pub open spec fn reference_step(s: Seq<u32>, k: int) -> Step {
    if word_at(s, k, "&#"@) {
        match character_at(s, k + 2) {
            Some((c, end)) => Step::Take((end - k) as usize, c as u32, Spot::Text),
            None => Step::Nothing,
        }
    } else if word_at(s, k, "&lt;"@) {
        Step::Take(4, '<' as u32, Spot::Text)
    } else if word_at(s, k, "&gt;"@) {
        Step::Take(4, '>' as u32, Spot::Text)
    } else if word_at(s, k, "&amp;"@) {
        Step::Take(5, '&' as u32, Spot::Text)
    } else if word_at(s, k, "&apos;"@) {
        Step::Take(6, '\'' as u32, Spot::Text)
    } else if word_at(s, k, "&quot;"@) {
        Step::Take(6, '"' as u32, Spot::Text)
    } else {
        Step::Unclear
    }
}

/// What the unit at `k` leads to.
pub open spec fn step(s: Seq<u32>, k: int, spot: Spot) -> Step {
    match spot {
        Spot::Tag => if word_at(s, k, "/>"@) {
            Step::Nothing
        } else if unit_is(s, k, '>') {
            Step::Skip(1, Spot::Text)
        } else if unit_is(s, k, '"') || unit_is(s, k, '\'') {
            Step::Skip(1, Spot::Quoted(s[k]))
        } else {
            Step::Skip(1, Spot::Tag)
        },
        Spot::Quoted(quote) => if s[k] == quote {
            Step::Skip(1, Spot::Tag)
        } else {
            Step::Skip(1, Spot::Quoted(quote))
        },
        Spot::Comment => if word_at(s, k, "-->"@) {
            Step::Skip(3, Spot::Text)
        } else {
            Step::Skip(1, Spot::Comment)
        },
        Spot::Instruction => if word_at(s, k, "?>"@) {
            Step::Skip(2, Spot::Text)
        } else {
            Step::Skip(1, Spot::Instruction)
        },
        Spot::Section => if word_at(s, k, "]]>"@) {
            Step::Skip(3, Spot::Text)
        } else {
            Step::Take(1, s[k], Spot::Section)
        },
        Spot::Text => if word_at(s, k, "</"@) {
            Step::Close
        } else if word_at(s, k, "<!--"@) {
            Step::Skip(4, Spot::Comment)
        } else if word_at(s, k, "<![CDATA["@) {
            Step::Skip(9, Spot::Section)
        } else if word_at(s, k, "<?"@) {
            Step::Break(2, Spot::Instruction)
        } else if unit_is(s, k, '<') {
            Step::Nothing
        } else if unit_is(s, k, '&') {
            reference_step(s, k)
        } else {
            Step::Take(1, s[k], Spot::Text)
        },
    }
}

/// What is read as the time of an element.
pub ghost enum Reading {
    /// This cannot be told.
    Unclear,
    /// Nothing.
    Nothing,
    /// This text.
    Text(Seq<u32>),
}

/// The last text that is not empty.
pub open spec fn last_text(piece: Seq<u32>, before: Seq<u32>) -> Seq<u32> {
    if piece.len() > 0 {
        piece
    } else {
        before
    }
}

/// What is read as the time of an element whose text so far is `piece`, behind a
/// processing instruction with the text `before` before it.
pub open spec fn reading(
    s: Seq<u32>,
    k: int,
    spot: Spot,
    piece: Seq<u32>,
    before: Seq<u32>,
) -> Reading
    decreases s.len() - k,
{
    if !(0 <= k < s.len()) {
        Reading::Nothing
    } else {
        match step(s, k, spot) {
            Step::Unclear => Reading::Unclear,
            Step::Nothing => Reading::Nothing,
            Step::Close => Reading::Text(last_text(piece, before)),
            Step::Skip(n, next) => if 0 < n && k + n <= s.len() {
                reading(s, k + n, next, piece, before)
            } else {
                Reading::Nothing
            },
            Step::Take(n, c, next) => if 0 < n && k + n <= s.len() {
                reading(s, k + n, next, piece.push(c), before)
            } else {
                Reading::Nothing
            },
            Step::Break(n, next) => if 0 < n && k + n <= s.len() {
                reading(s, k + n, next, Seq::empty(), last_text(piece, before))
            } else {
                Reading::Nothing
            },
        }
    }
}

/// The number that two digits at `k` write.
pub open spec fn two_digits(t: Seq<u32>, k: int) -> Option<int> {
    if 0 <= k && k + 1 < t.len() {
        match (digit_of(t[k], false), digit_of(t[k + 1], false)) {
            (Some(tens), Some(ones)) => Some(tens * 10 + ones),
            _ => None,
        }
    } else {
        None
    }
}

/// The minutes in the hours and minutes at `k`, which may have a colon between
/// them. Where the hours have a fraction in place of minutes, the least or the
/// greatest number that it can stand for.
pub open spec fn minutes_at(t: Seq<u32>, k: int, greatest: bool) -> int {
    let hours = match two_digits(t, k) {
        Some(h) => h,
        None => 0,
    };
    let minutes = match two_digits(
        t,
        if unit_is(t, k + 2, ':') {
            k + 3
        } else {
            k + 2
        },
    ) {
        Some(m) => m,
        None => if greatest && (unit_is(t, k + 2, '.') || unit_is(t, k + 2, ',')) {
            59
        } else {
            0
        },
    };
    hours * 60 + minutes
}

/// Whether a text from `k` on is `word` up to `end`.
pub open spec fn text_is(t: Seq<u32>, k: int, end: int, word: Seq<char>) -> bool {
    end == k + word.len() && word_at(t, k, word)
}

/// How many days the date from `k` to `end`, behind its year, is from the last
/// day of a year of 365 days, or from its first: none, one, or more (`None`).
pub open spec fn days_from_end(t: Seq<u32>, k: int, end: int, last: bool) -> Option<int> {
    if last {
        if text_is(t, k, end, "-12-31"@) || text_is(t, k, end, "1231"@) || text_is(
            t,
            k,
            end,
            "-365"@,
        ) || text_is(t, k, end, "365"@) {
            Some(0)
        } else if text_is(t, k, end, "-12-30"@) || text_is(t, k, end, "1230"@) || text_is(
            t,
            k,
            end,
            "-364"@,
        ) || text_is(t, k, end, "364"@) {
            Some(1)
        } else {
            None
        }
    } else {
        if text_is(t, k, end, "-01-01"@) || text_is(t, k, end, "0101"@) || text_is(
            t,
            k,
            end,
            "-001"@,
        ) || text_is(t, k, end, "001"@) {
            Some(0)
        } else if text_is(t, k, end, "-01-02"@) || text_is(t, k, end, "0102"@) || text_is(
            t,
            k,
            end,
            "-002"@,
        ) || text_is(t, k, end, "002"@) {
            Some(1)
        } else {
            None
        }
    }
}

/// Whether a time of the year 9999 (`last`) or -9999, behind which the text goes
/// on at `k`, leads out of the year by its offset. An offset is less than two
/// days. A date that is written by its week is taken to do so in the last week of
/// 9999 and in the first of -9999.
pub open spec fn leaves_year(t: Seq<u32>, k: int, last: bool) -> bool {
    let clock = first_from(t, k, 'T', 'T');
    let offset = first_from(t, clock, '+', '-');
    if last && (word_at(t, k, "W52"@) || word_at(t, k, "-W52"@)) {
        true
    } else if !last && (word_at(t, k, "W01"@) || word_at(t, k, "-W01"@)) {
        true
    } else if offset >= t.len() {
        false
    } else {
        match days_from_end(t, k, clock, last) {
            Some(days) => if last {
                unit_is(t, offset, '-') && minutes_at(t, clock + 1, true) + minutes_at(
                    t,
                    offset + 1,
                    true,
                ) >= (days + 1) * 1440
            } else {
                unit_is(t, offset, '+') && minutes_at(t, clock + 1, false) + days * 1440
                    < minutes_at(t, offset + 1, true)
            },
            None => false,
        }
    }
}

/// Whether a text may be a time that is out of range in UTC: of the year 9999,
/// written with four digits or with a sign and six, or of the year -9999.
pub open spec fn out_of_range(t: Seq<u32>) -> bool {
    if word_at(t, 0, "9999"@) {
        leaves_year(t, 4, true)
    } else if word_at(t, 0, "+009999"@) {
        leaves_year(t, 7, true)
    } else if word_at(t, 0, "-009999"@) {
        leaves_year(t, 7, false)
    } else {
        false
    }
}

/// Whether the time whose start tag goes on at `k` is read as a text that is not
/// out of range, or as none.
pub open spec fn time_plain(s: Seq<u32>, k: int) -> bool {
    match reading(s, k, Spot::Tag, Seq::empty(), Seq::empty()) {
        Reading::Unclear => false,
        Reading::Nothing => true,
        Reading::Text(t) => !out_of_range(t),
    }
}

/// Whether no time of a document is out of range: none that it writes is, none
/// is made of an entity, and no entity can become an element.
pub open spec fn times_plain(bytes: Seq<u8>) -> bool {
    let s = units_of(bytes);
    &&& forall|k: int| #[trigger] word_at(s, k, "<!ENTITY"@) ==> entity_inert(s, k)
    &&& forall|k: int| #[trigger] time_tag_at(s, k) ==> time_plain(s, k + 5)
}

/// The units of a document.
fn read_units(bytes: &[u8]) -> (units: Vec<u32>)
    ensures
        units@ == units_of(bytes@),
{
    let mut units: Vec<u32> = Vec::new();
    let len: usize = bytes.len();
    let big: bool = len >= 2 && bytes[0] == 0xfe && bytes[1] == 0xff;
    let little: bool = len >= 2 && bytes[0] == 0xff && bytes[1] == 0xfe;
    if big || little {
        let mut i: usize = 2;
        while len - i >= 2
            invariant
                2 <= i <= len,
                i % 2 == 0,
                len == bytes@.len(),
                big == (bytes@[0] == 0xfe && bytes@[1] == 0xff),
                big || little,
                little == (bytes@[0] == 0xff && bytes@[1] == 0xfe),
                units@.len() == i / 2 - 1,
                forall|j: int| 0 <= j < units@.len() ==> #[trigger] units@[j] == units_of(bytes@)[j],
            decreases len - i,
        {
            let first: u32 = bytes[i] as u32;
            let second: u32 = bytes[i + 1] as u32;
            let unit: u32 = if big {
                first * 256 + second
            } else {
                second * 256 + first
            };
            assert(unit == units_of(bytes@)[units@.len() as int]);
            units.push(unit);
            i += 2;
        }
    } else {
        let mut i: usize = 0;
        while i < len
            invariant
                i <= len,
                len == bytes@.len(),
                units@.len() == i,
                forall|j: int| 0 <= j < i ==> #[trigger] units@[j] == bytes@[j],
            decreases len - i,
        {
            units.push(bytes[i] as u32);
            i += 1;
        }
    }
    assert(units@ =~= units_of(bytes@));
    units
}

/// Whether `c` stands at `k`.
fn is_unit(s: &[u32], k: usize, c: char) -> (yes: bool)
    ensures
        yes == unit_is(s@, k as int, c),
{
    k < s.len() && s[k] == c as u32
}

/// Whether `word` stands at `k`.
fn is_word_at(s: &[u32], k: usize, word: &str) -> (yes: bool)
    requires
        k <= s@.len(),
    ensures
        yes == word_at(s@, k as int, word@),
{
    let n: usize = word.unicode_len();
    let len: usize = s.len();
    if n > len - k {
        return false;
    }
    let mut j: usize = 0;
    while j < n
        invariant
            j <= n,
            n == word@.len(),
            k + n <= len,
            len == s@.len(),
            forall|i: int| 0 <= i < j ==> s@[k + i] == #[trigger] word@[i] as u32,
        decreases n - j,
    {
        if s[k + j] != word.get_char(j) as u32 {
            return false;
        }
        j += 1;
    }
    true
}

/// The first position from `k` on at which `a` or `b` stands.
fn find_from(s: &[u32], k: usize, a: char, b: char) -> (at: usize)
    requires
        k <= s@.len(),
    ensures
        at == first_from(s@, k as int, a, b),
        k <= at <= s@.len(),
{
    let mut at: usize = k;
    while at < s.len() && !is_unit(s, at, a) && !is_unit(s, at, b)
        invariant
            k <= at <= s@.len(),
            first_from(s@, k as int, a, b) == first_from(s@, at as int, a, b),
        decreases s@.len() - at,
    {
        at += 1;
    }
    at
}

/// The value of a digit.
fn read_digit(unit: u32, hex: bool) -> (value: Option<u32>)
    ensures
        match value {
            Some(d) => digit_of(unit, hex) == Some(d as int) && d < 16,
            None => digit_of(unit, hex) is None,
        },
{
    if '0' as u32 <= unit && unit <= '9' as u32 {
        Some(unit - '0' as u32)
    } else if hex && 'a' as u32 <= unit && unit <= 'f' as u32 {
        Some(unit - 'a' as u32 + 10)
    } else if hex && 'A' as u32 <= unit && unit <= 'F' as u32 {
        Some(unit - 'A' as u32 + 10)
    } else {
        None
    }
}

/// The number from `k` to the next semicolon, and the position behind it.
fn read_number(s: &[u32], k: usize, hex: bool) -> (found: Option<(u32, usize)>)
    requires
        k <= s@.len(),
    ensures
        match found {
            Some((c, end)) => number_at(s@, k as int, hex, 0) == Some((c as int, end as int)) && k
                < end <= s@.len() && c <= 0x10ffff,
            None => number_at(s@, k as int, hex, 0) is None,
        },
{
    let mut value: u32 = 0;
    let mut at: usize = k;
    while at < s.len()
        invariant
            k <= at <= s@.len(),
            value <= 0x10ffff,
            number_at(s@, k as int, hex, 0) == number_at(s@, at as int, hex, value as int),
        decreases s@.len() - at,
    {
        if is_unit(s, at, ';') {
            return Some((value, at + 1));
        }
        match read_digit(s[at], hex) {
            Some(d) => {
                let next: u32 = if hex {
                    value * 16 + d
                } else {
                    value * 10 + d
                };
                if next > 0x10ffff {
                    return None;
                }
                value = next;
            },
            None => {
                return None;
            },
        }
        at += 1;
    }
    None
}

/// The character that a reference by number writes, and the position behind it.
fn read_character(s: &[u32], k: usize) -> (found: Option<(u32, usize)>)
    requires
        k <= s@.len(),
    ensures
        match found {
            Some((c, end)) => character_at(s@, k as int) == Some((c as int, end as int)) && k < end
                <= s@.len() && c <= 0x10ffff,
            None => character_at(s@, k as int) is None,
        },
{
    if k < s.len() && is_unit(s, k, 'x') {
        read_number(s, k + 1, true)
    } else {
        read_number(s, k, false)
    }
}

/// Whether the entity that is declared at `k` cannot become markup.
fn is_inert(s: &[u32], k: usize) -> (yes: bool)
    requires
        k <= s@.len(),
    ensures
        yes == entity_inert(s@, k as int),
{
    let at: usize = find_from(s, k, '"', '\'');
    if at >= s.len() {
        return true;
    }
    let quote: u32 = s[at];
    let mut i: usize = at + 1;
    while i < s.len()
        invariant
            i <= s@.len(),
            at < s@.len(),
            quote == s@[at as int],
            at == first_from(s@, k as int, '"', '\''),
            value_inert(s@, at + 1, quote) == value_inert(s@, i as int, quote),
        decreases s@.len() - i,
    {
        if s[i] == quote {
            return true;
        }
        if is_unit(s, i, '<') {
            return false;
        }
        if is_unit(s, i, '&') {
            if !is_unit(s, i + 1, '#') {
                return false;
            }
            match read_character(s, i + 2) {
                Some((c, end)) => {
                    if c == '<' as u32 || c == '&' as u32 {
                        return false;
                    }
                    i = end;
                },
                None => {
                    return false;
                },
            }
        } else {
            i += 1;
        }
    }
    true
}

/// Whether the name of an element may be `time` in a tag that begins at `k`.
fn is_time_tag(s: &[u32], k: usize) -> (yes: bool)
    requires
        k < s@.len(),
    ensures
        yes == time_tag_at(s@, k as int),
        yes ==> k + 5 < s@.len(),
{
    proof {
        reveal_strlit("<time");
        reveal_strlit(":time");
    }
    if s.len() - k <= 5 {
        return false;
    }
    let e: usize = k + 5;
    (is_word_at(s, k, "<time") || is_word_at(s, k, ":time")) && (is_unit(s, e, '>') || is_unit(
        s,
        e,
        '/',
    ) || is_unit(s, e, ' ') || is_unit(s, e, '\t') || is_unit(s, e, '\r') || is_unit(s, e, '\n'))
}

/// What a reference in the text at `k` leads to.
fn take_reference(s: &[u32], k: usize) -> (to: Step)
    requires
        k < s@.len(),
    ensures
        to == reference_step(s@, k as int),
{
    proof {
        reveal_strlit("&#");
        assert("&#"@.len() == 2);
    }
    if s.len() - k >= 2 && is_word_at(s, k, "&#") {
        match read_character(s, k + 2) {
            Some((c, end)) => Step::Take(end - k, c, Spot::Text),
            None => Step::Nothing,
        }
    } else if is_word_at(s, k, "&lt;") {
        Step::Take(4, '<' as u32, Spot::Text)
    } else if is_word_at(s, k, "&gt;") {
        Step::Take(4, '>' as u32, Spot::Text)
    } else if is_word_at(s, k, "&amp;") {
        Step::Take(5, '&' as u32, Spot::Text)
    } else if is_word_at(s, k, "&apos;") {
        Step::Take(6, '\'' as u32, Spot::Text)
    } else if is_word_at(s, k, "&quot;") {
        Step::Take(6, '"' as u32, Spot::Text)
    } else {
        Step::Unclear
    }
}

/// What the unit at `k` leads to.
fn take(s: &[u32], k: usize, spot: Spot) -> (to: Step)
    requires
        k < s@.len(),
    ensures
        to == step(s@, k as int, spot),
{
    match spot {
        Spot::Tag => if is_word_at(s, k, "/>") {
            Step::Nothing
        } else if is_unit(s, k, '>') {
            Step::Skip(1, Spot::Text)
        } else if is_unit(s, k, '"') || is_unit(s, k, '\'') {
            Step::Skip(1, Spot::Quoted(s[k]))
        } else {
            Step::Skip(1, Spot::Tag)
        },
        Spot::Quoted(quote) => if s[k] == quote {
            Step::Skip(1, Spot::Tag)
        } else {
            Step::Skip(1, Spot::Quoted(quote))
        },
        Spot::Comment => if is_word_at(s, k, "-->") {
            Step::Skip(3, Spot::Text)
        } else {
            Step::Skip(1, Spot::Comment)
        },
        Spot::Instruction => if is_word_at(s, k, "?>") {
            Step::Skip(2, Spot::Text)
        } else {
            Step::Skip(1, Spot::Instruction)
        },
        Spot::Section => if is_word_at(s, k, "]]>") {
            Step::Skip(3, Spot::Text)
        } else {
            Step::Take(1, s[k], Spot::Section)
        },
        Spot::Text => if is_word_at(s, k, "</") {
            Step::Close
        } else if is_word_at(s, k, "<!--") {
            Step::Skip(4, Spot::Comment)
        } else if is_word_at(s, k, "<![CDATA[") {
            Step::Skip(9, Spot::Section)
        } else if is_word_at(s, k, "<?") {
            Step::Break(2, Spot::Instruction)
        } else if is_unit(s, k, '<') {
            Step::Nothing
        } else if is_unit(s, k, '&') {
            take_reference(s, k)
        } else {
            Step::Take(1, s[k], Spot::Text)
        },
    }
}

/// The position behind a number is behind its start and within the text.
proof fn lemma_number_ends(s: Seq<u32>, k: int, hex: bool, value: int)
    requires
        0 <= k,
    ensures
        match number_at(s, k, hex, value) {
            Some((c, end)) => k < end <= s.len(),
            None => true,
        },
    decreases s.len() - k,
{
    if k < s.len() && !unit_is(s, k, ';') {
        if let Some(d) = digit_of(s[k], hex) {
            let next = if hex {
                value * 16 + d
            } else {
                value * 10 + d
            };
            if next <= 0x10ffff {
                lemma_number_ends(s, k + 1, hex, next);
            }
        }
    }
}

/// A step goes on within the document or to its end.
proof fn lemma_step_stays_inside(s: Seq<u32>, k: int, spot: Spot)
    requires
        0 <= k < s.len() <= usize::MAX,
    ensures
        match step(s, k, spot) {
            Step::Skip(n, next) => 0 < n && k + n <= s.len(),
            Step::Take(n, c, next) => 0 < n && k + n <= s.len(),
            Step::Break(n, next) => 0 < n && k + n <= s.len(),
            _ => true,
        },
{
    reveal_strlit("-->");
    reveal_strlit("?>");
    reveal_strlit("]]>");
    reveal_strlit("<!--");
    reveal_strlit("<![CDATA[");
    reveal_strlit("<?");
    reveal_strlit("&lt;");
    reveal_strlit("&gt;");
    reveal_strlit("&amp;");
    reveal_strlit("&apos;");
    reveal_strlit("&quot;");
    assert("-->"@.len() == 3);
    assert("?>"@.len() == 2);
    assert("]]>"@.len() == 3);
    assert("<!--"@.len() == 4);
    assert("<![CDATA["@.len() == 9);
    assert("<?"@.len() == 2);
    assert("&lt;"@.len() == 4);
    assert("&gt;"@.len() == 4);
    assert("&amp;"@.len() == 5);
    assert("&apos;"@.len() == 6);
    assert("&quot;"@.len() == 6);
    lemma_number_ends(s, k + 2, false, 0);
    lemma_number_ends(s, k + 3, true, 0);
}

/// Whether the time whose start tag goes on at `from` is read as a text that is
/// not out of range, or as none.
fn is_plain(s: &[u32], from: usize) -> (yes: bool)
    requires
        from <= s@.len(),
    ensures
        yes == time_plain(s@, from as int),
{
    let ghost whole = reading(s@, from as int, Spot::Tag, Seq::empty(), Seq::empty());
    let len: usize = s.len();
    let mut piece: Vec<u32> = Vec::new();
    let mut before: Vec<u32> = Vec::new();
    let mut k: usize = from;
    let mut spot: Spot = Spot::Tag;
    assert(piece@ =~= Seq::<u32>::empty());
    while k < len
        invariant
            k <= len,
            len == s@.len(),
            whole == reading(s@, from as int, Spot::Tag, Seq::empty(), Seq::empty()),
            whole == reading(s@, k as int, spot, piece@, before@),
        decreases len - k,
    {
        proof {
            lemma_step_stays_inside(s@, k as int, spot);
        }
        match take(s, k, spot) {
            Step::Unclear => {
                return false;
            },
            Step::Nothing => {
                return true;
            },
            Step::Close => {
                let text: &Vec<u32> = if piece.len() > 0 {
                    &piece
                } else {
                    &before
                };
                return !is_out_of_range(text.as_slice());
            },
            Step::Skip(n, next) => {
                k += n;
                spot = next;
            },
            Step::Take(n, c, next) => {
                piece.push(c);
                k += n;
                spot = next;
            },
            Step::Break(n, next) => {
                if piece.len() > 0 {
                    before = piece;
                }
                piece = Vec::new();
                assert(piece@ =~= Seq::<u32>::empty());
                k += n;
                spot = next;
            },
        }
    }
    true
}

/// The number that two digits at `k` write.
fn read_two_digits(t: &[u32], k: usize) -> (value: Option<u32>)
    ensures
        match value {
            Some(n) => two_digits(t@, k as int) == Some(n as int) && n <= 165,
            None => two_digits(t@, k as int) is None,
        },
{
    if k < t.len() && t.len() - k > 1 {
        match (read_digit(t[k], false), read_digit(t[k + 1], false)) {
            (Some(tens), Some(ones)) => Some(tens * 10 + ones),
            _ => None,
        }
    } else {
        None
    }
}

/// The minutes in the hours and minutes at `k`.
fn read_minutes(t: &[u32], k: usize, greatest: bool) -> (minutes: u32)
    requires
        k <= t@.len(),
    ensures
        minutes == minutes_at(t@, k as int, greatest),
        minutes <= 10065,
{
    let hours: u32 = match read_two_digits(t, k) {
        Some(h) => h,
        None => 0,
    };
    if t.len() - k <= 2 {
        return hours * 60;
    }
    let at: usize = k + 2;
    let minutes: Option<u32> = if is_unit(t, at, ':') {
        read_two_digits(t, at + 1)
    } else {
        read_two_digits(t, at)
    };
    let minutes: u32 = match minutes {
        Some(m) => m,
        None => if greatest && (is_unit(t, at, '.') || is_unit(t, at, ',')) {
            59
        } else {
            0
        },
    };
    hours * 60 + minutes
}

/// Whether a text from `k` on is `word` up to `end`.
fn is_text(t: &[u32], k: usize, end: usize, word: &str) -> (yes: bool)
    requires
        k <= end <= t@.len(),
    ensures
        yes == text_is(t@, k as int, end as int, word@),
{
    end - k == word.unicode_len() && is_word_at(t, k, word)
}

/// How many days a date is from the last day of a year, or from its first.
fn read_days_from_end(t: &[u32], k: usize, end: usize, last: bool) -> (days: Option<u32>)
    requires
        k <= end <= t@.len(),
    ensures
        match days {
            Some(n) => days_from_end(t@, k as int, end as int, last) == Some(n as int) && n <= 1,
            None => days_from_end(t@, k as int, end as int, last) is None,
        },
{
    if last {
        if is_text(t, k, end, "-12-31") || is_text(t, k, end, "1231") || is_text(t, k, end, "-365")
            || is_text(t, k, end, "365") {
            Some(0)
        } else if is_text(t, k, end, "-12-30") || is_text(t, k, end, "1230") || is_text(
            t,
            k,
            end,
            "-364",
        ) || is_text(t, k, end, "364") {
            Some(1)
        } else {
            None
        }
    } else {
        if is_text(t, k, end, "-01-01") || is_text(t, k, end, "0101") || is_text(t, k, end, "-001")
            || is_text(t, k, end, "001") {
            Some(0)
        } else if is_text(t, k, end, "-01-02") || is_text(t, k, end, "0102") || is_text(
            t,
            k,
            end,
            "-002",
        ) || is_text(t, k, end, "002") {
            Some(1)
        } else {
            None
        }
    }
}

/// Whether a time of the year 9999 or -9999 leads out of the year by its offset.
fn does_leave_year(t: &[u32], k: usize, last: bool) -> (yes: bool)
    requires
        k <= t@.len(),
    ensures
        yes == leaves_year(t@, k as int, last),
{
    if last && (is_word_at(t, k, "W52") || is_word_at(t, k, "-W52")) {
        return true;
    }
    if !last && (is_word_at(t, k, "W01") || is_word_at(t, k, "-W01")) {
        return true;
    }
    let clock: usize = find_from(t, k, 'T', 'T');
    let offset: usize = find_from(t, clock, '+', '-');
    if offset >= t.len() {
        return false;
    }
    match read_days_from_end(t, k, clock, last) {
        Some(days) => if last {
            is_unit(t, offset, '-') && read_minutes(t, clock + 1, true) + read_minutes(
                t,
                offset + 1,
                true,
            ) >= (days + 1) * 1440
        } else {
            is_unit(t, offset, '+') && read_minutes(t, clock + 1, false) + days * 1440
                < read_minutes(t, offset + 1, true)
        },
        None => false,
    }
}

/// Whether a text may be a time that is out of range in UTC.
fn is_out_of_range(t: &[u32]) -> (yes: bool)
    ensures
        yes == out_of_range(t@),
{
    proof {
        reveal_strlit("9999");
        reveal_strlit("+009999");
        reveal_strlit("-009999");
        assert("9999"@.len() == 4);
        assert("+009999"@.len() == 7);
        assert("-009999"@.len() == 7);
    }
    if is_word_at(t, 0, "9999") {
        does_leave_year(t, 4, true)
    } else if is_word_at(t, 0, "+009999") {
        does_leave_year(t, 7, true)
    } else if is_word_at(t, 0, "-009999") {
        does_leave_year(t, 7, false)
    } else {
        false
    }
}

/// Whether no time of a document is out of range.
pub fn has_plain_times(bytes: &[u8]) -> (plain: bool)
    ensures
        plain == times_plain(bytes@),
{
    proof {
        reveal_strlit("<!ENTITY");
        reveal_strlit("<time");
        reveal_strlit(":time");
        assert("<!ENTITY"@.len() == 8);
    }
    let units: Vec<u32> = read_units(bytes);
    let s: &[u32] = units.as_slice();
    let mut k: usize = 0;
    while k < s.len()
        invariant
            k <= s@.len(),
            s@ == units_of(bytes@),
            forall|i: int|
                i < k && #[trigger] word_at(s@, i, "<!ENTITY"@) ==> entity_inert(s@, i),
            forall|i: int| i < k && #[trigger] time_tag_at(s@, i) ==> time_plain(s@, i + 5),
        decreases s@.len() - k,
    {
        if is_word_at(s, k, "<!ENTITY") && !is_inert(s, k) {
            return false;
        }
        if is_time_tag(s, k) && !is_plain(s, k + 5) {
            assert(time_tag_at(s@, k as int));
            return false;
        }
        k += 1;
    }
    true
}

/// The first position is the one at which a unit stands and before which none does.
proof fn lemma_first_from(s: Seq<u32>, k: int, a: char, b: char, at: int)
    requires
        0 <= k <= at <= s.len(),
        forall|i: int| k <= i < at ==> #[trigger] s[i] != a as u32 && s[i] != b as u32,
        at < s.len() ==> unit_is(s, at, a) || unit_is(s, at, b),
    ensures
        first_from(s, k, a, b) == at,
    decreases at - k,
{
    if k < at {
        assert(s[k] != a as u32 && s[k] != b as u32);
        lemma_first_from(s, k + 1, a, b, at);
    }
}

/// The unit for a digit.
pub open spec fn digit_unit(n: int) -> u32 {
    ('0' as u32 + n) as u32
}

/// A time of the year 9999 as it is written: month, day, hour, minute, second, and
/// an offset of hours and minutes behind its sign.
pub open spec fn time_text(
    month: int,
    day: int,
    hour: int,
    minute: int,
    second: int,
    sign: char,
    hours: int,
    minutes: int,
) -> Seq<u32> {
    seq![
        '9' as u32,
        '9' as u32,
        '9' as u32,
        '9' as u32,
        '-' as u32,
        digit_unit(month / 10),
        digit_unit(month % 10),
        '-' as u32,
        digit_unit(day / 10),
        digit_unit(day % 10),
        'T' as u32,
        digit_unit(hour / 10),
        digit_unit(hour % 10),
        ':' as u32,
        digit_unit(minute / 10),
        digit_unit(minute % 10),
        ':' as u32,
        digit_unit(second / 10),
        digit_unit(second % 10),
        sign as u32,
        digit_unit(hours / 10),
        digit_unit(hours % 10),
        ':' as u32,
        digit_unit(minutes / 10),
        digit_unit(minutes % 10),
    ]
}

/// A time of the year 9999 is out of range exactly where it is so late on one of
/// the last two days that its offset, west of Greenwich, leads beyond them.
pub proof fn late_times_are_out_of_range(
    month: int,
    day: int,
    hour: int,
    minute: int,
    second: int,
    sign: char,
    hours: int,
    minutes: int,
)
    requires
        0 <= month <= 99,
        0 <= day <= 99,
        0 <= hour <= 99,
        0 <= minute <= 99,
        0 <= second <= 99,
        sign == '+' || sign == '-',
        0 <= hours <= 99,
        0 <= minutes <= 99,
    ensures
        out_of_range(time_text(month, day, hour, minute, second, sign, hours, minutes)) <==> {
            let total = (hour + hours) * 60 + minute + minutes;
            &&& sign == '-'
            &&& month == 12
            &&& (day == 31 && total >= 1440) || (day == 30 && total >= 2880)
        },
{
    let t = time_text(month, day, hour, minute, second, sign, hours, minutes);
    reveal_strlit("9999");
    reveal_strlit("W52");
    reveal_strlit("-W52");
    assert(word_at(t, 0, "9999"@));
    assert(!word_at(t, 4, "W52"@)) by {
        if word_at(t, 4, "W52"@) {
            assert(t[4] == "W52"@[0] as u32);
        }
    }
    assert(!word_at(t, 4, "-W52"@)) by {
        if word_at(t, 4, "-W52"@) {
            assert(t[5] == "-W52"@[1] as u32);
        }
    }
    lemma_first_from(t, 4, 'T', 'T', 10);
    lemma_first_from(t, 10, '+', '-', 19);
    lemma_minutes(t, 11, hour, minute);
    lemma_minutes(t, 20, hours, minutes);
    lemma_date(t, month, day);
}

/// Hours and minutes with a colon between them are read back.
proof fn lemma_minutes(t: Seq<u32>, k: int, hour: int, minute: int)
    requires
        0 <= k,
        k + 5 <= t.len(),
        0 <= hour <= 99,
        0 <= minute <= 99,
        t[k] == digit_unit(hour / 10),
        t[k + 1] == digit_unit(hour % 10),
        t[k + 2] == ':' as u32,
        t[k + 3] == digit_unit(minute / 10),
        t[k + 4] == digit_unit(minute % 10),
    ensures
        minutes_at(t, k, true) == hour * 60 + minute,
{
}

/// A date with dashes is one of the last two days exactly where it says so.
proof fn lemma_date(t: Seq<u32>, month: int, day: int)
    requires
        t.len() > 10,
        0 <= month <= 99,
        0 <= day <= 99,
        t[4] == '-' as u32,
        t[5] == digit_unit(month / 10),
        t[6] == digit_unit(month % 10),
        t[7] == '-' as u32,
        t[8] == digit_unit(day / 10),
        t[9] == digit_unit(day % 10),
    ensures
        days_from_end(t, 4, 10, true) == if month == 12 && day == 31 {
            Some(0int)
        } else if month == 12 && day == 30 {
            Some(1int)
        } else {
            None
        },
{
    reveal_strlit("-12-31");
    reveal_strlit("1231");
    reveal_strlit("-365");
    reveal_strlit("365");
    reveal_strlit("-12-30");
    reveal_strlit("1230");
    reveal_strlit("-364");
    reveal_strlit("364");
    let a = "-12-31"@;
    let b = "-12-30"@;
    if word_at(t, 4, a) {
        assert(t[5] == a[1] as u32 && t[6] == a[2] as u32 && t[8] == a[4] as u32 && t[9]
            == a[5] as u32);
    }
    if word_at(t, 4, b) {
        assert(t[5] == b[1] as u32 && t[6] == b[2] as u32 && t[8] == b[4] as u32 && t[9]
            == b[5] as u32);
    }
    if month == 12 && day == 31 {
        assert(word_at(t, 4, a));
    }
    if month == 12 && day == 30 {
        assert(word_at(t, 4, b));
    }
}

/// A time of no other year than 9999 and -9999 is out of range.
pub proof fn other_years_are_in_range(t: Seq<u32>)
    requires
        t.len() == 0 || !(unit_is(t, 0, '9') || unit_is(t, 0, '+') || unit_is(t, 0, '-')),
    ensures
        !out_of_range(t),
{
    reveal_strlit("9999");
    reveal_strlit("+009999");
    reveal_strlit("-009999");
    if word_at(t, 0, "9999"@) {
        assert(t[0] == "9999"@[0] as u32);
    }
    if word_at(t, 0, "+009999"@) {
        assert(t[0] == "+009999"@[0] as u32);
    }
    if word_at(t, 0, "-009999"@) {
        assert(t[0] == "-009999"@[0] as u32);
    }
}

/// Text without markup and references is read as it stands, from the end of the
/// start tag to the end tag.
pub proof fn plain_text_is_read(s: Seq<u32>, k: int, end: int)
    requires
        0 <= k,
        k + 1 < end,
        end + 1 < s.len(),
        unit_is(s, k, '>'),
        unit_is(s, end, '<'),
        unit_is(s, end + 1, '/'),
        forall|i: int| k < i < end ==> #[trigger] s[i] != '<' as u32 && s[i] != '&' as u32,
    ensures
        reading(s, k, Spot::Tag, Seq::empty(), Seq::empty()) == Reading::Text(
            s.subrange(k + 1, end),
        ),
{
    reveal_strlit("/>");
    assert(!word_at(s, k, "/>"@)) by {
        if word_at(s, k, "/>"@) {
            assert(s[k] == "/>"@[0] as u32);
        }
    }
    assert(s.subrange(k + 1, k + 1) =~= Seq::<u32>::empty());
    lemma_plain_text(s, k + 1, k + 1, end);
}

/// The rest of such a text is read as it stands.
proof fn lemma_plain_text(s: Seq<u32>, start: int, i: int, end: int)
    requires
        0 <= start <= i <= end,
        start < end,
        end + 1 < s.len(),
        unit_is(s, end, '<'),
        unit_is(s, end + 1, '/'),
        forall|j: int| start <= j < end ==> #[trigger] s[j] != '<' as u32 && s[j] != '&' as u32,
    ensures
        reading(s, i, Spot::Text, s.subrange(start, i), Seq::empty()) == Reading::Text(
            s.subrange(start, end),
        ),
    decreases end - i,
{
    reveal_strlit("</");
    reveal_strlit("<!--");
    reveal_strlit("<![CDATA[");
    reveal_strlit("<?");
    if i < end {
        assert(s[i] != '<' as u32 && s[i] != '&' as u32);
        if word_at(s, i, "</"@) {
            assert(s[i] == "</"@[0] as u32);
        }
        if word_at(s, i, "<!--"@) {
            assert(s[i] == "<!--"@[0] as u32);
        }
        if word_at(s, i, "<![CDATA["@) {
            assert(s[i] == "<![CDATA["@[0] as u32);
        }
        if word_at(s, i, "<?"@) {
            assert(s[i] == "<?"@[0] as u32);
        }
        assert(s.subrange(start, i).push(s[i]) =~= s.subrange(start, i + 1));
        lemma_plain_text(s, start, i + 1, end);
    } else {
        assert(word_at(s, end, "</"@));
    }
}

/// A document that has no time and declares no entity is plain.
pub proof fn documents_without_times_are_plain(bytes: Seq<u8>)
    requires
        forall|k: int| !#[trigger] word_at(units_of(bytes), k, "<!ENTITY"@),
        forall|k: int| !#[trigger] word_at(units_of(bytes), k, "<time"@),
        forall|k: int| !#[trigger] word_at(units_of(bytes), k, ":time"@),
    ensures
        times_plain(bytes),
{
}

} // verus!
