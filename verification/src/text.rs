//! Text as a sequence of characters: trimming, splitting, reading integers and
//! comparing without regard to case.

use vstd::prelude::*;

verus! {

/// Whether `c` has the Unicode property `White_Space`.
pub open spec fn white_space(c: char) -> bool {
    let n = c as u32;
    ||| 0x09 <= n <= 0x0d
    ||| n == 0x20
    ||| n == 0x85
    ||| n == 0xa0
    ||| n == 0x1680
    ||| 0x2000 <= n <= 0x200a
    ||| n == 0x2028
    ||| n == 0x2029
    ||| n == 0x202f
    ||| n == 0x205f
    ||| n == 0x3000
}

/// The executable reading of [`white_space`].
pub fn is_white_space(c: char) -> (yes: bool)
    ensures
        yes == white_space(c),
{
    let n: u32 = c as u32;
    (0x09 <= n && n <= 0x0d) || n == 0x20 || n == 0x85 || n == 0xa0 || n == 0x1680 || (0x2000 <= n
        && n <= 0x200a) || n == 0x2028 || n == 0x2029 || n == 0x202f || n == 0x205f || n == 0x3000
}

/// Whether `c` is one of the ten decimal digits.
pub open spec fn digit(c: char) -> bool {
    '0' <= c <= '9'
}

/// The executable reading of [`digit`].
pub fn is_digit(c: char) -> (yes: bool)
    ensures
        yes == digit(c),
{
    '0' <= c && c <= '9'
}

/// The number of characters before the first one that satisfies `stop`, or the
/// length of `s` where none does.
pub open spec fn first_where(s: Seq<char>, stop: spec_fn(char) -> bool) -> int
    decreases s.len(),
{
    if s.len() == 0 || stop(s[0]) {
        0
    } else {
        1 + first_where(s.drop_first(), stop)
    }
}

/// The test for the one character `sep`.
pub open spec fn is_char(sep: char) -> spec_fn(char) -> bool {
    |c: char| c == sep
}

/// The position of the first `sep` in `s`, or the length of `s`.
pub open spec fn first_of(s: Seq<char>, sep: char) -> int {
    first_where(s, is_char(sep))
}

/// `s` without its leading white space.
pub open spec fn trim_front(s: Seq<char>) -> Seq<char>
    decreases s.len(),
{
    if s.len() > 0 && white_space(s[0]) {
        trim_front(s.drop_first())
    } else {
        s
    }
}

/// `s` without its trailing white space.
pub open spec fn trim_back(s: Seq<char>) -> Seq<char>
    decreases s.len(),
{
    if s.len() > 0 && white_space(s.last()) {
        trim_back(s.drop_last())
    } else {
        s
    }
}

/// `s` without its leading and trailing white space.
pub open spec fn trimmed(s: Seq<char>) -> Seq<char> {
    trim_back(trim_front(s))
}

/// The parts of `s` around its first `sep`; `None` where there is no `sep`.
pub open spec fn cut_once(s: Seq<char>, sep: char) -> Option<(Seq<char>, Seq<char>)> {
    let at = first_of(s, sep);
    if at < s.len() {
        Some((s.take(at), s.skip(at + 1)))
    } else {
        None
    }
}

/// The parts of `s` between its separators: one more than it has separators.
pub open spec fn parts(s: Seq<char>, sep: char) -> Seq<Seq<char>>
    decreases s.len(),
{
    let at = first_of(s, sep);
    if 0 <= at < s.len() {
        seq![s.take(at)] + parts(s.skip(at + 1), sep)
    } else {
        seq![s]
    }
}

/// The texts of `strs`.
pub open spec fn texts(strs: Seq<&str>) -> Seq<Seq<char>> {
    Seq::new(strs.len(), |i: int| strs[i]@)
}

/// The number that a row of digits writes in base ten.
pub open spec fn digits_value(s: Seq<char>) -> int
    decreases s.len(),
{
    if s.len() == 0 {
        0
    } else {
        digits_value(s.drop_last()) * 10 + (s.last() as u32 - '0' as u32)
    }
}

/// Whether `s` is a row of one or more digits.
pub open spec fn all_digits(s: Seq<char>) -> bool {
    s.len() > 0 && forall|i: int| 0 <= i < s.len() ==> digit(#[trigger] s[i])
}

/// The integer that `s` writes: digits, with at most one sign before them.
pub open spec fn integer_of(s: Seq<char>) -> Option<int> {
    if s.len() > 0 && (s[0] == '+' || s[0] == '-') {
        if all_digits(s.skip(1)) {
            Some(
                if s[0] == '-' {
                    -digits_value(s.skip(1))
                } else {
                    digits_value(s.skip(1))
                },
            )
        } else {
            None
        }
    } else if all_digits(s) {
        Some(digits_value(s))
    } else {
        None
    }
}

/// Whether the Unicode lower case of `c` is the single character `l`, where `l`
/// is an ASCII character that is no capital. Besides the ASCII capital of a
/// letter only the Kelvin sign has an ASCII lower case, which is `k`.
pub open spec fn lowers_to(c: char, l: char) -> bool {
    ||| c == l
    ||| 'a' <= l <= 'z' && c as u32 + 32 == l as u32
    ||| l == 'k' && c == '\u{212a}'
}

/// Whether the Unicode lower case of `s` is `word`, where `word` is ASCII text
/// without capitals.
pub open spec fn lower_case_is(s: Seq<char>, word: Seq<char>) -> bool {
    s.len() == word.len() && forall|i: int|
        0 <= i < s.len() ==> lowers_to(#[trigger] s[i], word[i])
}

/// Whether `c` is an ASCII letter.
pub open spec fn letter(c: char) -> bool {
    'a' <= c <= 'z' || 'A' <= c <= 'Z'
}

/// Whether `word` stands at `i` in `s`, with no letter next to it.
pub open spec fn word_stands_at(s: Seq<char>, word: Seq<char>, i: int) -> bool {
    &&& 0 <= i
    &&& i + word.len() <= s.len()
    &&& s.subrange(i, i + word.len()) == word
    &&& i > 0 ==> !letter(s[i - 1])
    &&& i + word.len() < s.len() ==> !letter(s[i + word.len()])
}

/// Whether `word` occurs in `s` as a word of its own.
pub open spec fn has_word(s: Seq<char>, word: Seq<char>) -> bool {
    exists|i: int| word_stands_at(s, word, i)
}

/// What [`first_where`] finds.
pub proof fn lemma_first_where(s: Seq<char>, stop: spec_fn(char) -> bool)
    ensures
        0 <= first_where(s, stop) <= s.len(),
        forall|i: int| 0 <= i < first_where(s, stop) ==> !stop(#[trigger] s[i]),
        first_where(s, stop) < s.len() ==> stop(s[first_where(s, stop)]),
    decreases s.len(),
{
    if s.len() > 0 && !stop(s[0]) {
        lemma_first_where(s.drop_first(), stop);
        assert forall|i: int| 0 <= i < first_where(s, stop) implies !stop(#[trigger] s[i]) by {
            if i > 0 {
                assert(s.drop_first()[i - 1] == s[i]);
            }
        }
    }
}

/// A position that has the two properties of [`first_where`] is it.
pub proof fn lemma_first_where_is(s: Seq<char>, stop: spec_fn(char) -> bool, at: int)
    requires
        0 <= at <= s.len(),
        forall|i: int| 0 <= i < at ==> !stop(#[trigger] s[i]),
        at < s.len() ==> stop(s[at]),
    ensures
        first_where(s, stop) == at,
{
    lemma_first_where(s, stop);
}

/// The front of a text goes up to its first character that is no white space.
proof fn lemma_trim_front_is(s: Seq<char>, at: int)
    requires
        0 <= at <= s.len(),
        forall|i: int| 0 <= i < at ==> white_space(#[trigger] s[i]),
        at < s.len() ==> !white_space(s[at]),
    ensures
        trim_front(s) == s.skip(at),
    decreases at,
{
    if at == 0 {
        assert(s.skip(0) == s);
    } else {
        assert(white_space(s[0]));
        let rest = s.drop_first();
        assert forall|i: int| 0 <= i < at - 1 implies white_space(#[trigger] rest[i]) by {
            assert(rest[i] == s[i + 1]);
        }
        lemma_trim_front_is(rest, at - 1);
        assert(rest.skip(at - 1) == s.skip(at));
    }
}

/// The back of a text starts behind its last character that is no white space.
proof fn lemma_trim_back_is(s: Seq<char>, end: int)
    requires
        0 <= end <= s.len(),
        forall|i: int| end <= i < s.len() ==> white_space(#[trigger] s[i]),
        end > 0 ==> !white_space(s[end - 1]),
    ensures
        trim_back(s) == s.take(end),
    decreases s.len() - end,
{
    if end == s.len() {
        assert(s.take(end) == s);
    } else {
        assert(white_space(s[s.len() - 1]));
        let rest = s.drop_last();
        lemma_trim_back_is(rest, end);
        assert(rest.take(end) == s.take(end));
    }
}

/// The positions between which the trimmed text lies.
proof fn lemma_trimmed_is(s: Seq<char>) -> (ends: (int, int))
    ensures
        0 <= ends.0 <= ends.1 <= s.len(),
        trimmed(s) == s.subrange(ends.0, ends.1),
        ends.0 < ends.1 ==> !white_space(s[ends.0]) && !white_space(s[ends.1 - 1]),
    decreases s.len(),
{
    if s.len() == 0 {
        assert(trimmed(s) == s.subrange(0, 0));
        (0, 0)
    } else if white_space(s[0]) {
        let rest = s.drop_first();
        let ends = lemma_trimmed_is(rest);
        assert(rest.subrange(ends.0, ends.1) == s.subrange(ends.0 + 1, ends.1 + 1));
        (ends.0 + 1, ends.1 + 1)
    } else if white_space(s.last()) {
        let rest = s.drop_last();
        let ends = lemma_trimmed_is(rest);
        assert(trim_front(rest) == rest);
        assert(rest.subrange(ends.0, ends.1) == s.subrange(ends.0, ends.1));
        ends
    } else {
        assert(s.subrange(0, s.len() as int) == s);
        (0, s.len() as int)
    }
}

/// A trimmed text does not start or end with white space.
pub proof fn trimmed_ends(s: Seq<char>)
    ensures
        trimmed(s).len() > 0 ==> !white_space(trimmed(s).first()) && !white_space(
            trimmed(s).last(),
        ),
{
    let ends = lemma_trimmed_is(s);
}

/// Trimming a trimmed text changes nothing.
pub proof fn trim_is_idempotent(s: Seq<char>)
    ensures
        trimmed(trimmed(s)) == trimmed(s),
{
    trimmed_ends(s);
}

/// Trimming the end of a text leaves the start of it.
proof fn lemma_trim_back_is_a_start(s: Seq<char>)
    ensures
        trim_back(s).is_prefix_of(s),
    decreases s.len(),
{
    if s.len() > 0 && white_space(s.last()) {
        lemma_trim_back_is_a_start(s.drop_last());
    }
}

/// Trimming a text that does not start with white space leaves the start of it.
pub proof fn trimmed_is_a_start(s: Seq<char>)
    requires
        s.len() > 0 ==> !white_space(s[0]),
    ensures
        trimmed(s).is_prefix_of(s),
{
    lemma_trim_back_is_a_start(s);
}

/// White space around a text is trimmed away with it.
pub proof fn padding_is_trimmed(before: Seq<char>, s: Seq<char>, after: Seq<char>)
    requires
        forall|i: int| 0 <= i < before.len() ==> white_space(#[trigger] before[i]),
        forall|i: int| 0 <= i < after.len() ==> white_space(#[trigger] after[i]),
    ensures
        trimmed(before + s + after) == trimmed(s),
    decreases before.len() + after.len(),
{
    let all = before + s + after;
    if before.len() > 0 {
        assert(all[0] == before[0]);
        assert(all.drop_first() == before.drop_first() + s + after);
        padding_is_trimmed(before.drop_first(), s, after);
    } else if after.len() > 0 {
        let shorter = before + s + after.drop_last();
        assert(all.last() == after.last());
        assert(all.drop_last() == shorter);
        padding_is_trimmed(before, s, after.drop_last());
        lemma_trailing_space(shorter, all.last());
        assert(shorter.push(all.last()) == all);
    } else {
        assert(all == s);
    }
}

/// One white space character behind a text is trimmed away with it.
proof fn lemma_trailing_space(s: Seq<char>, c: char)
    requires
        white_space(c),
    ensures
        trimmed(s.push(c)) == trimmed(s),
    decreases s.len(),
{
    if s.len() > 0 && white_space(s[0]) {
        assert(s.push(c).drop_first() == s.drop_first().push(c));
        lemma_trailing_space(s.drop_first(), c);
    } else if s.len() > 0 {
        assert(s.push(c).drop_last() == s);
    } else {
        assert(s.push(c).drop_first() == s);
    }
}

/// The characters of `s`, in order.
pub fn chars_of(s: &str) -> (chars: Vec<char>)
    ensures
        chars@ == s@,
{
    let mut chars: Vec<char> = Vec::new();
    for c in iter: s.chars()
        invariant
            chars@ == iter.seq().take(iter.index()),
            iter.seq() == s@,
    {
        chars.push(c);
    }
    chars
}

/// The position of the first `sep` in `chars` from `start` on, or its length.
fn find_from(chars: &Vec<char>, start: usize, sep: char) -> (at: usize)
    requires
        start <= chars@.len(),
    ensures
        at == start + first_of(chars@.skip(start as int), sep),
        start <= at <= chars@.len(),
{
    let mut at: usize = start;
    while at < chars.len() && chars[at] != sep
        invariant
            start <= at <= chars@.len(),
            forall|i: int| start <= i < at ==> chars@[i] != sep,
        decreases chars@.len() - at,
    {
        at += 1;
    }
    proof {
        let rest = chars@.skip(start as int);
        assert forall|i: int| 0 <= i < at - start implies #[trigger] rest[i] != sep by {
            assert(rest[i] == chars@[start + i]);
        }
        lemma_first_where_is(rest, is_char(sep), at - start);
    }
    at
}

/// `s` without its leading and trailing white space.
pub fn trim(s: &str) -> (t: &str)
    ensures
        t@ == trimmed(s@),
{
    let chars: Vec<char> = chars_of(s);
    let mut start: usize = 0;
    while start < chars.len() && is_white_space(chars[start])
        invariant
            start <= chars@.len(),
            forall|i: int| 0 <= i < start ==> white_space(#[trigger] chars@[i]),
        decreases chars@.len() - start,
    {
        start += 1;
    }
    let mut end: usize = chars.len();
    while end > start && is_white_space(chars[end - 1])
        invariant
            start <= end <= chars@.len(),
            forall|i: int| end <= i < chars@.len() ==> white_space(#[trigger] chars@[i]),
        decreases end,
    {
        end -= 1;
    }
    proof {
        lemma_trim_front_is(s@, start as int);
        let front = s@.skip(start as int);
        assert forall|i: int| end - start <= i < front.len() implies white_space(
            #[trigger] front[i],
        ) by {
            assert(front[i] == chars@[start + i]);
        }
        if end > start {
            assert(front[end - start - 1] == chars@[end - 1]);
        }
        lemma_trim_back_is(front, end - start);
        assert(front.take(end - start) == s@.subrange(start as int, end as int));
    }
    s.substring_char(start, end)
}

/// The parts of `s` around its first `sep`; `None` where there is no `sep`.
pub fn split_once(s: &str, sep: char) -> (cut: Option<(&str, &str)>)
    ensures
        match cut {
            Some((a, b)) => cut_once(s@, sep) == Some((a@, b@)),
            None => cut_once(s@, sep) is None,
        },
{
    let chars: Vec<char> = chars_of(s);
    let at: usize = find_from(&chars, 0, sep);
    assert(s@.skip(0) == s@);
    if at < chars.len() {
        let a: &str = s.substring_char(0, at);
        let b: &str = s.substring_char(at + 1, chars.len());
        assert(a@ == s@.take(at as int));
        assert(b@ == s@.skip(at + 1));
        Some((a, b))
    } else {
        None
    }
}

/// The parts of `s` between its separators.
pub fn split(s: &str, sep: char) -> (pieces: Vec<&str>)
    ensures
        texts(pieces@) == parts(s@, sep),
{
    let chars: Vec<char> = chars_of(s);
    let mut pieces: Vec<&str> = Vec::new();
    let mut start: usize = 0;
    let mut at: usize = find_from(&chars, 0, sep);
    proof {
        assert(s@.skip(0) == s@);
        assert(texts(pieces@) + parts(s@, sep) == parts(s@, sep));
    }
    while at < chars.len()
        invariant
            chars@ == s@,
            start <= at <= chars@.len(),
            at == start + first_of(s@.skip(start as int), sep),
            texts(pieces@) + parts(s@.skip(start as int), sep) == parts(s@, sep),
        decreases chars@.len() - start,
    {
        let ghost before = texts(pieces@);
        let ghost rest = s@.skip(start as int);
        let piece: &str = s.substring_char(start, at);
        pieces.push(piece);
        proof {
            assert(piece@ == rest.take(at - start));
            assert(rest.skip(at - start + 1) == s@.skip(at + 1));
            assert(texts(pieces@) == before.push(piece@));
            assert(before.push(piece@) + parts(s@.skip(at + 1), sep) == before + (seq![piece@]
                + parts(s@.skip(at + 1), sep)));
        }
        start = at + 1;
        at = find_from(&chars, start, sep);
    }
    let ghost before = texts(pieces@);
    let piece: &str = s.substring_char(start, chars.len());
    pieces.push(piece);
    proof {
        assert(piece@ == s@.skip(start as int));
        assert(texts(pieces@) == before + seq![piece@]);
    }
    pieces
}

/// The integer that `s` writes, where it is one of the 32-bit integers.
pub fn parse_i32(s: &str) -> (value: Option<i32>)
    ensures
        match value {
            Some(v) => integer_of(s@) == Some(v as int),
            None => match integer_of(s@) {
                Some(v) => v < i32::MIN || v > i32::MAX,
                None => true,
            },
        },
{
    let chars: Vec<char> = chars_of(s);
    let signed: bool = chars.len() > 0 && (chars[0] == '+' || chars[0] == '-');
    let negative: bool = chars.len() > 0 && chars[0] == '-';
    let start: usize = if signed {
        1
    } else {
        0
    };
    let ghost body = s@.skip(start as int);
    assert(s@.skip(0) == s@);
    if start == chars.len() {
        return None;
    }
    let limit: i64 = 2147483648;
    let mut value: i64 = 0;
    let mut beyond: bool = false;
    let mut i: usize = start;
    while i < chars.len()
        invariant
            chars@ == s@,
            start <= i <= chars@.len(),
            start == 1 <==> s@[0] == '+' || s@[0] == '-',
            start == 0 || start == 1,
            body == s@.skip(start as int),
            start == 0 ==> body == s@,
            limit == 2147483648,
            0 <= value <= limit,
            forall|j: int| start <= j < i ==> digit(#[trigger] chars@[j]),
            !beyond ==> value == digits_value(body.take(i - start)),
            beyond ==> digits_value(body.take(i - start)) > limit,
        decreases chars@.len() - i,
    {
        let c: char = chars[i];
        if !is_digit(c) {
            proof {
                assert(body[i - start] == c);
                assert(!all_digits(body));
            }
            return None;
        }
        let d: i64 = (c as u32 - '0' as u32) as i64;
        proof {
            let next = body.take(i - start + 1);
            assert(next.drop_last() == body.take(i - start));
            assert(next.last() == c);
        }
        if !beyond {
            let next: i64 = value * 10 + d;
            if next > limit {
                beyond = true;
            } else {
                value = next;
            }
        }
        i += 1;
    }
    proof {
        assert(body.take(body.len() as int) == body);
        assert forall|j: int| 0 <= j < body.len() implies digit(#[trigger] body[j]) by {
            assert(body[j] == chars@[start + j]);
        }
        assert(all_digits(body));
    }
    if beyond {
        None
    } else if negative {
        Some((-value) as i32)
    } else if value < limit {
        Some(value as i32)
    } else {
        None
    }
}

/// Whether `a` and `b` hold the same characters.
pub fn same_text(a: &str, b: &str) -> (same: bool)
    ensures
        same == (a@ == b@),
{
    let x: Vec<char> = chars_of(a);
    let y: Vec<char> = chars_of(b);
    if x.len() != y.len() {
        return false;
    }
    let mut i: usize = 0;
    while i < x.len()
        invariant
            i <= x@.len() == y@.len(),
            x@ == a@,
            y@ == b@,
            forall|j: int| 0 <= j < i ==> x@[j] == y@[j],
        decreases x@.len() - i,
    {
        if x[i] != y[i] {
            assert(a@[i as int] != b@[i as int]);
            return false;
        }
        i += 1;
    }
    assert(a@ == b@);
    true
}

/// The executable reading of [`letter`].
fn is_letter(c: char) -> (yes: bool)
    ensures
        yes == letter(c),
{
    ('a' <= c && c <= 'z') || ('A' <= c && c <= 'Z')
}

/// Whether `word` stands at `i` in `s`, with no letter next to it.
fn stands_at(s: &Vec<char>, word: &Vec<char>, i: usize) -> (yes: bool)
    requires
        i <= s@.len(),
    ensures
        yes == word_stands_at(s@, word@, i as int),
{
    let n: usize = word.len();
    let len: usize = s.len();
    if n > len - i {
        return false;
    }
    let ghost part = s@.subrange(i as int, i + n);
    let mut j: usize = 0;
    while j < n
        invariant
            j <= n,
            n == word@.len(),
            i + n <= len,
            len == s@.len(),
            part == s@.subrange(i as int, i + n),
            forall|k: int| 0 <= k < j ==> part[k] == word@[k],
        decreases n - j,
    {
        if s[i + j] != word[j] {
            assert(part[j as int] != word@[j as int]);
            return false;
        }
        j += 1;
    }
    assert(part == word@);
    !(i > 0 && is_letter(s[i - 1])) && !(i + n < len && is_letter(s[i + n]))
}

/// Whether `word` occurs in `s` as a word of its own.
pub fn contains_word(s: &str, word: &str) -> (yes: bool)
    ensures
        yes == has_word(s@, word@),
{
    let x: Vec<char> = chars_of(s);
    let y: Vec<char> = chars_of(word);
    let mut i: usize = 0;
    while i < x.len()
        invariant
            i <= x@.len(),
            x@ == s@,
            y@ == word@,
            forall|k: int| 0 <= k < i ==> !word_stands_at(s@, word@, k),
        decreases x@.len() - i,
    {
        if stands_at(&x, &y, i) {
            return true;
        }
        i += 1;
    }
    stands_at(&x, &y, i)
}

/// Whether `word`, an ASCII text without capitals, is the lower case of `s`.
pub fn is_lower_case(s: &str, word: &str) -> (same: bool)
    ensures
        same == lower_case_is(s@, word@),
{
    let x: Vec<char> = chars_of(s);
    let y: Vec<char> = chars_of(word);
    if x.len() != y.len() {
        return false;
    }
    let mut i: usize = 0;
    while i < x.len()
        invariant
            i <= x@.len() == y@.len(),
            x@ == s@,
            y@ == word@,
            forall|j: int| 0 <= j < i ==> lowers_to(#[trigger] s@[j], word@[j]),
        decreases x@.len() - i,
    {
        let c: char = x[i];
        let l: char = y[i];
        if !(c == l || ('a' <= l && l <= 'z' && c as u32 == l as u32 - 32) || (l == 'k' && c
            == '\u{212a}')) {
            assert(!lowers_to(s@[i as int], word@[i as int]));
            return false;
        }
        i += 1;
    }
    true
}

/// Whether `c` does not occur in `s`.
pub open spec fn free_of(s: Seq<char>, c: char) -> bool {
    forall|i: int| 0 <= i < s.len() ==> #[trigger] s[i] != c
}

/// Whether every character of `s` is white space.
pub open spec fn all_white(s: Seq<char>) -> bool {
    forall|i: int| 0 <= i < s.len() ==> white_space(#[trigger] s[i])
}

/// Texts with `sep` between them.
pub open spec fn join(pieces: Seq<Seq<char>>, sep: Seq<char>) -> Seq<char>
    decreases pieces.len(),
{
    if pieces.len() == 0 {
        Seq::empty()
    } else if pieces.len() == 1 {
        pieces[0]
    } else {
        pieces[0] + sep + join(pieces.drop_first(), sep)
    }
}

/// A text without the separator is its only part, and has nothing to be cut at.
pub proof fn one_part(s: Seq<char>, sep: char)
    requires
        free_of(s, sep),
    ensures
        parts(s, sep) == seq![s],
        cut_once(s, sep) is None,
{
    lemma_first_where_is(s, is_char(sep), s.len() as int);
}

/// A text is cut at its first separator, and what stands before it is the first
/// of its parts.
pub proof fn first_part(a: Seq<char>, sep: char, b: Seq<char>)
    requires
        free_of(a, sep),
    ensures
        parts(a + seq![sep] + b, sep) == seq![a] + parts(b, sep),
        cut_once(a + seq![sep] + b, sep) == Some((a, b)),
{
    let all = a + seq![sep] + b;
    assert forall|i: int| 0 <= i < a.len() implies #[trigger] all[i] != sep by {
        assert(all[i] == a[i]);
    }
    lemma_first_where_is(all, is_char(sep), a.len() as int);
    assert(all.take(a.len() as int) == a);
    assert(all.skip(a.len() as int + 1) == b);
}

/// The parts of two texts with a separator between them are those of the one and
/// then those of the other.
pub proof fn parts_of_both(a: Seq<char>, sep: char, b: Seq<char>)
    ensures
        parts(a + seq![sep] + b, sep) == parts(a, sep) + parts(b, sep),
    decreases a.len(),
{
    if free_of(a, sep) {
        first_part(a, sep, b);
        one_part(a, sep);
    } else {
        lemma_first_where(a, is_char(sep));
        let at = first_of(a, sep);
        if at >= a.len() {
            assert forall|i: int| 0 <= i < a.len() implies #[trigger] a[i] != sep by {
                assert(!is_char(sep)(a[i]));
            }
        }
        let head = a.take(at);
        let tail = a.skip(at + 1);
        assert(free_of(head, sep)) by {
            assert forall|i: int| 0 <= i < head.len() implies #[trigger] head[i] != sep by {
                assert(!is_char(sep)(a[i]));
            }
        }
        assert(a[at] == sep);
        assert(a == head + seq![sep] + tail);
        first_part(head, sep, tail);
        parts_of_both(tail, sep, b);
        first_part(head, sep, tail + seq![sep] + b);
        assert(a + seq![sep] + b == head + seq![sep] + (tail + seq![sep] + b));
        assert(parts(a, sep) + parts(b, sep) == seq![head] + (parts(tail, sep) + parts(b, sep)));
    }
}

/// The parts of a text, with the separator between them, are the text again, and
/// none of them has the separator.
pub proof fn parts_make_the_text(s: Seq<char>, sep: char)
    ensures
        join(parts(s, sep), seq![sep]) == s,
        parts(s, sep).len() > 0,
        forall|i: int| 0 <= i < parts(s, sep).len() ==> free_of(#[trigger] parts(s, sep)[i], sep),
    decreases s.len(),
{
    lemma_first_where(s, is_char(sep));
    let at = first_of(s, sep);
    if at >= s.len() {
        assert forall|i: int| 0 <= i < s.len() implies #[trigger] s[i] != sep by {
            assert(!is_char(sep)(s[i]));
        }
        one_part(s, sep);
    } else {
        let head = s.take(at);
        let tail = s.skip(at + 1);
        assert(free_of(head, sep)) by {
            assert forall|i: int| 0 <= i < head.len() implies #[trigger] head[i] != sep by {
                assert(!is_char(sep)(s[i]));
            }
        }
        parts_make_the_text(tail, sep);
        let all = parts(s, sep);
        assert(all == seq![head] + parts(tail, sep));
        assert(all.drop_first() == parts(tail, sep));
        assert(s[at] == sep);
        assert(s == head + seq![sep] + tail);
        assert forall|i: int| 0 <= i < all.len() implies free_of(#[trigger] all[i], sep) by {
            if i > 0 {
                assert(all[i] == parts(tail, sep)[i - 1]);
            }
        }
    }
}

/// Texts with a separator between them, and white space round the separators, are
/// the parts of the whole again, but for that space.
pub proof fn joined_texts_are_parts(
    pieces: Seq<Seq<char>>,
    before: Seq<char>,
    sep: char,
    after: Seq<char>,
    lead: Seq<char>,
)
    requires
        pieces.len() > 0,
        forall|i: int| 0 <= i < pieces.len() ==> free_of(#[trigger] pieces[i], sep),
        all_white(before),
        all_white(after),
        all_white(lead),
        !white_space(sep),
    ensures
        ({
            let all = parts(lead + join(pieces, before + seq![sep] + after), sep);
            &&& all.len() == pieces.len()
            &&& forall|i: int|
                0 <= i < all.len() ==> trimmed(#[trigger] all[i]) == trimmed(pieces[i])
        }),
    decreases pieces.len(),
{
    let gap = before + seq![sep] + after;
    let none: Seq<char> = Seq::empty();
    if pieces.len() == 1 {
        let head = lead + pieces[0];
        assert(free_of(head, sep)) by {
            assert forall|i: int| 0 <= i < head.len() implies #[trigger] head[i] != sep by {
                if i < lead.len() {
                    assert(white_space(lead[i]));
                } else {
                    assert(head[i] == pieces[0][i - lead.len()]);
                }
            }
        }
        one_part(head, sep);
        padding_is_trimmed(lead, pieces[0], none);
        assert(lead + pieces[0] + none == head);
    } else {
        let rest = pieces.drop_first();
        assert forall|i: int| 0 <= i < rest.len() implies free_of(#[trigger] rest[i], sep) by {
            assert(rest[i] == pieces[i + 1]);
        }
        joined_texts_are_parts(rest, before, sep, after, after);
        let head = lead + pieces[0] + before;
        let n = lead.len() + pieces[0].len();
        assert(free_of(head, sep)) by {
            assert forall|i: int| 0 <= i < head.len() implies #[trigger] head[i] != sep by {
                if i < lead.len() {
                    assert(white_space(lead[i]));
                } else if i < n {
                    assert(head[i] == pieces[0][i - lead.len()]);
                } else {
                    assert(white_space(before[i - n]));
                }
            }
        }
        let tail = after + join(rest, gap);
        first_part(head, sep, tail);
        assert(lead + join(pieces, gap) == head + seq![sep] + tail);
        padding_is_trimmed(lead, pieces[0], before);
        let all = parts(lead + join(pieces, gap), sep);
        assert forall|i: int| 0 <= i < all.len() implies trimmed(#[trigger] all[i]) == trimmed(
            pieces[i],
        ) by {
            if i > 0 {
                assert(all[i] == parts(tail, sep)[i - 1]);
                assert(rest[i - 1] == pieces[i]);
            }
        }
    }
}

/// A trimmed text is the text without white space at its ends: the text is it
/// with white space round it, and a text that neither starts nor ends with white
/// space is its own.
pub proof fn trimming_takes_off_space(s: Seq<char>) -> (ends: (Seq<char>, Seq<char>))
    ensures
        s == ends.0 + trimmed(s) + ends.1,
        all_white(ends.0),
        all_white(ends.1),
        s.len() > 0 && !white_space(s.first()) && !white_space(s.last()) ==> trimmed(s) == s,
    decreases s.len(),
{
    let none: Seq<char> = Seq::empty();
    if s.len() == 0 {
        (none, none)
    } else if white_space(s[0]) {
        let rest = s.drop_first();
        let ends = trimming_takes_off_space(rest);
        assert(trimmed(s) == trimmed(rest));
        let front = seq![s[0]] + ends.0;
        assert(s == seq![s[0]] + rest);
        assert(seq![s[0]] + (ends.0 + trimmed(rest) + ends.1) == front + trimmed(rest) + ends.1);
        (front, ends.1)
    } else if white_space(s.last()) {
        let rest = s.drop_last();
        let ends = trimming_takes_off_space(rest);
        lemma_trailing_space(rest, s.last());
        assert(rest.push(s.last()) == s);
        let back = ends.1.push(s.last());
        assert(s == ends.0 + trimmed(s) + back);
        (ends.0, back)
    } else {
        assert(trimmed(s) == s);
        (none, none)
    }
}

/// A word that stands in a text with no letter next to it occurs in it as a word
/// of its own.
pub proof fn words_stand_alone(a: Seq<char>, word: Seq<char>, b: Seq<char>)
    requires
        a.len() > 0 ==> !letter(a.last()),
        b.len() > 0 ==> !letter(b.first()),
    ensures
        has_word(a + word + b, word),
{
    let s = a + word + b;
    let i = a.len() as int;
    assert(s.subrange(i, i + word.len()) == word);
    assert(word_stands_at(s, word, i));
}

/// A digit behind the digits of a number makes it ten times as great, and the
/// digit more; a sign before them gives the number or its negative; and a text
/// with any other character is no number.
pub proof fn integers_grow_by_digits(s: Seq<char>, d: char)
    requires
        s.len() > 0,
        forall|i: int| 0 <= i < s.len() ==> '0' <= #[trigger] s[i] <= '9',
        '0' <= d <= '9',
    ensures
        integer_of(seq![d]) == Some(d as int - '0' as int),
        integer_of(s) is Some,
        integer_of(s.push(d)) == Some(integer_of(s)->Some_0 * 10 + (d as int - '0' as int)),
        integer_of(seq!['+'] + s) == integer_of(s),
        integer_of(seq!['-'] + s) == Some(-integer_of(s)->Some_0),
{
    let t = s.push(d);
    assert(t.drop_last() == s);
    assert(all_digits(t));
    assert(all_digits(s));
    assert(seq![d].drop_last() == Seq::<char>::empty());
    reveal_with_fuel(digits_value, 2);
    assert((seq!['+'] + s).skip(1) == s);
    assert((seq!['-'] + s).skip(1) == s);
}

/// A text with a character that is neither a digit nor a sign in front is no
/// number, and neither is the empty text.
pub proof fn other_characters_write_no_integer(s: Seq<char>, i: int)
    requires
        0 <= i < s.len(),
        !('0' <= s[i] <= '9'),
        i > 0 || (s[0] != '+' && s[0] != '-'),
    ensures
        integer_of(s) is None,
        integer_of(Seq::empty()) is None,
{
    if all_digits(s) {
        assert(digit(s[i]));
    }
    if i > 0 && all_digits(s.skip(1)) {
        assert(s.skip(1)[i - 1] == s[i]);
    }
}

} // verus!
