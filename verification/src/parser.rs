//! Reading a relation from text in the attribute-relation file format.
//!
//! The text is handled as a sequence of characters. A word is either a run
//! of characters without white space, or what stands between two quotation
//! marks of the same kind.
use crate::data_set::{
    field_ids, texts, Attribute, Content, Data, DataSet, Declared, Nominal,
};
use crate::entropy::power;
use crate::error::ParseError;
use vstd::prelude::*;
use vstd::slice::slice_subrange;

verus! {

/// Whether `c` is white space, as `char::is_whitespace` tells.
pub uninterp spec fn is_white_space(c: char) -> bool;

/// `is_whitespace` of `char` depends on the character alone.
pub assume_specification[ char::is_whitespace ](c: char) -> (white: bool)
    ensures
        white == is_white_space(c),
;

/// `collect` of the standard library, on the characters of a slice: the
/// string made of them.
#[verifier::external_body]
pub(crate) fn text_of(chars: &[char]) -> (text: String)
    ensures
        text@ == chars@,
{
    chars.iter().collect()
}

/// The characters of `text`.
pub fn chars_of(text: &str) -> (chars: Vec<char>)
    ensures
        chars@ == text@,
{
    let mut chars: Vec<char> = Vec::new();
    for c in it: text.chars()
        invariant
            it.seq() == text@,
            chars@.len() == it.index(),
            forall|j: int| 0 <= j < chars@.len() ==> chars@[j] == it.seq()[j],
    {
        chars.push(c);
    }
    assert(chars@ =~= text@);
    chars
}

/// The first place at or after `from` that holds no white space, or the
/// length of `s` if there is none.
pub open spec fn skip_white(s: Seq<char>, from: int) -> int
    decreases s.len() - from,
{
    if from < 0 || from >= s.len() {
        s.len() as int
    } else if is_white_space(s[from]) {
        skip_white(s, from + 1)
    } else {
        from
    }
}

/// The first place at or after `from` that holds white space, or the length
/// of `s` if there is none.
pub open spec fn skip_black(s: Seq<char>, from: int) -> int
    decreases s.len() - from,
{
    if from < 0 || from >= s.len() {
        s.len() as int
    } else if is_white_space(s[from]) {
        from
    } else {
        skip_black(s, from + 1)
    }
}

/// The first place at or after `from` that holds `c`, or the length of `s`
/// if there is none.
pub open spec fn seek(s: Seq<char>, from: int, c: char) -> int
    decreases s.len() - from,
{
    if from < 0 || from >= s.len() {
        s.len() as int
    } else if s[from] == c {
        from
    } else {
        seek(s, from + 1, c)
    }
}

/// What `skip_white` finds lies behind white space only.
pub proof fn lemma_skip_white(s: Seq<char>, from: int)
    requires
        0 <= from <= s.len(),
    ensures
        from <= skip_white(s, from) <= s.len(),
        forall|i: int| from <= i < skip_white(s, from) ==> is_white_space(#[trigger] s[i]),
        skip_white(s, from) < s.len() ==> !is_white_space(s[skip_white(s, from)]),
    decreases s.len() - from,
{
    if from < s.len() && is_white_space(s[from]) {
        lemma_skip_white(s, from + 1);
    }
}

/// What `skip_black` finds lies behind a run without white space.
pub proof fn lemma_skip_black(s: Seq<char>, from: int)
    requires
        0 <= from <= s.len(),
    ensures
        from <= skip_black(s, from) <= s.len(),
        forall|i: int| from <= i < skip_black(s, from) ==> !is_white_space(#[trigger] s[i]),
        skip_black(s, from) < s.len() ==> is_white_space(s[skip_black(s, from)]),
    decreases s.len() - from,
{
    if from < s.len() && !is_white_space(s[from]) {
        lemma_skip_black(s, from + 1);
    }
}

/// What `seek` finds is the first `c` from `from` on.
pub proof fn lemma_seek(s: Seq<char>, from: int, c: char)
    requires
        0 <= from <= s.len(),
    ensures
        from <= seek(s, from, c) <= s.len(),
        forall|i: int| from <= i < seek(s, from, c) ==> #[trigger] s[i] != c,
        seek(s, from, c) < s.len() ==> s[seek(s, from, c)] == c,
    decreases s.len() - from,
{
    if from < s.len() && s[from] != c {
        lemma_seek(s, from + 1, c);
    }
}

/// Where a word lies in a text, and where reading goes on after it.
pub struct Extent {
    /// The place of the first character of the word.
    pub start: int,
    /// The place behind the last character of the word.
    pub end: int,
    /// The place from which the next word is looked for: that of the first
    /// white space behind the word, or the length of the text when there is
    /// none.
    pub next: int,
}

/// The quotation mark that is missing when `quote` is not closed.
pub open spec fn unclosed(quote: char) -> ParseError {
    if quote == '\'' {
        ParseError::MissingSingleQuote
    } else {
        ParseError::MissingDoubleQuote
    }
}

/// The next word of `s` from `from` on.
///
/// White space before the word is passed over. A word that starts with a
/// quotation mark reaches from behind the mark up to the next mark of the
/// same kind, which is looked for from the second character behind the
/// opening mark on. Any other word reaches up to the next white space. The
/// first character of the word, and the one behind an opening quotation
/// mark, must be of ASCII.
pub open spec fn word_at(s: Seq<char>, from: int) -> Result<Extent, ParseError> {
    let start = skip_white(s, from);
    if start >= s.len() {
        Err(ParseError::EndOfFile)
    } else if s[start] as u32 >= 128 {
        Err(ParseError::UnreadableCharacter)
    } else if s[start] == '\'' || s[start] == '"' {
        let inner = start + 1;
        if inner >= s.len() {
            Err(unclosed(s[start]))
        } else if s[inner] as u32 >= 128 {
            Err(ParseError::UnreadableCharacter)
        } else {
            let close = seek(s, inner + 1, s[start]);
            if close >= s.len() {
                Err(unclosed(s[start]))
            } else {
                Ok(Extent { start: inner, end: close, next: skip_black(s, close) })
            }
        }
    } else {
        let end = skip_black(s, start);
        Ok(Extent { start, end, next: end })
    }
}

/// A word lies inside the text, and reading goes on behind it.
pub proof fn lemma_word_at(s: Seq<char>, from: int)
    requires
        0 <= from <= s.len(),
    ensures
        word_at(s, from) matches Ok(extent) ==> from <= extent.start <= extent.end <= extent.next
            <= s.len() && extent.start < s.len(),
{
    lemma_skip_white(s, from);
    let start = skip_white(s, from);
    if start < s.len() {
        lemma_skip_black(s, start);
        if start + 1 < s.len() {
            lemma_seek(s, start + 2, s[start]);
            let close = seek(s, start + 2, s[start]);
            if close < s.len() {
                lemma_skip_black(s, close);
            }
        }
    }
}

/// The place of the first character from `from` on that is no white space.
pub fn pass_white(text: &[char], from: usize) -> (at: usize)
    requires
        from <= text@.len(),
    ensures
        at == skip_white(text@, from as int),
        from <= at <= text@.len(),
{
    let mut at: usize = from;
    while at < text.len() && text[at].is_whitespace()
        invariant
            from <= at <= text@.len(),
            skip_white(text@, from as int) == skip_white(text@, at as int),
        decreases text@.len() - at,
    {
        at += 1;
    }
    at
}

/// The place of the first white space from `from` on.
pub fn pass_black(text: &[char], from: usize) -> (at: usize)
    requires
        from <= text@.len(),
    ensures
        at == skip_black(text@, from as int),
        from <= at <= text@.len(),
{
    let mut at: usize = from;
    while at < text.len() && !text[at].is_whitespace()
        invariant
            from <= at <= text@.len(),
            skip_black(text@, from as int) == skip_black(text@, at as int),
        decreases text@.len() - at,
    {
        at += 1;
    }
    at
}

/// The place of the first `c` from `from` on.
pub fn find_char(text: &[char], from: usize, c: char) -> (at: usize)
    requires
        from <= text@.len(),
    ensures
        at == seek(text@, from as int, c),
        from <= at <= text@.len(),
{
    let mut at: usize = from;
    while at < text.len() && text[at] != c
        invariant
            from <= at <= text@.len(),
            seek(text@, from as int, c) == seek(text@, at as int, c),
        decreases text@.len() - at,
    {
        at += 1;
    }
    at
}

/// A reader that goes through a text word by word.
pub struct Parser<'a> {
    raw_data: &'a [char],
    index: usize,
}

impl<'a> Parser<'a> {
    /// The text that is read.
    pub closed spec fn text(&self) -> Seq<char> {
        self.raw_data@
    }

    /// The place from which the next word is looked for.
    pub closed spec fn position(&self) -> int {
        self.index as int
    }

    /// The place lies inside the text or at its end.
    pub open spec fn wf(&self) -> bool {
        0 <= self.position() <= self.text().len()
    }

    /// A reader of `raw_data` that starts at `index`.
    pub fn new(raw_data: &'a [char], index: usize) -> (parser: Self)
        ensures
            parser.text() == raw_data@,
            parser.position() == index,
    {
        Parser { raw_data, index }
    }

    /// Reads the next word and moves behind it. On failure the reader stays
    /// where it is.
    pub fn parse_string(&mut self) -> (word: Result<&'a [char], ParseError>)
        requires
            old(self).wf(),
        ensures
            final(self).wf(),
            final(self).text() == old(self).text(),
            match word_at(old(self).text(), old(self).position()) {
                Ok(extent) => word matches Ok(found) && found@ == old(self).text().subrange(
                    extent.start,
                    extent.end,
                ) && final(self).position() == extent.next,
                Err(error) => word == Err::<&[char], ParseError>(error) && final(self).position()
                    == old(self).position(),
            },
    {
        let text: &'a [char] = self.raw_data;
        proof {
            lemma_word_at(text@, self.index as int);
        }
        let start = pass_white(text, self.index);
        if start >= text.len() {
            return Err(ParseError::EndOfFile);
        }
        let first: char = text[start];
        if first as u32 >= 128 {
            return Err(ParseError::UnreadableCharacter);
        }
        if first == '\'' || first == '"' {
            let missing = if first == '\'' {
                ParseError::MissingSingleQuote
            } else {
                ParseError::MissingDoubleQuote
            };
            let inner: usize = start + 1;
            if inner >= text.len() {
                return Err(missing);
            }
            if text[inner] as u32 >= 128 {
                return Err(ParseError::UnreadableCharacter);
            }
            let close = find_char(text, inner + 1, first);
            if close >= text.len() {
                return Err(missing);
            }
            self.index = pass_black(text, close);
            Ok(slice_subrange(text, inner, close))
        } else {
            let end = pass_black(text, start);
            self.index = end;
            Ok(slice_subrange(text, start, end))
        }
    }
}

/// The texts of `pieces`, in order.
pub open spec fn pieces(slices: Seq<&[char]>) -> Seq<Seq<char>> {
    Seq::new(slices.len(), |i: int| slices[i]@)
}

/// The pieces into which the character `c` cuts `s` from `from` on. A `c`
/// at the end leaves an empty piece behind it.
pub open spec fn split_from(s: Seq<char>, from: int, c: char) -> Seq<Seq<char>>
    decreases s.len() - from,
{
    let at = seek(s, from, c);
    if from < 0 || from > s.len() {
        Seq::empty()
    } else if at < from || at >= s.len() {
        seq![s.subrange(from, s.len() as int)]
    } else {
        seq![s.subrange(from, at)] + split_from(s, at + 1, c)
    }
}

/// The pieces into which the character `c` cuts `s`.
pub open spec fn split(s: Seq<char>, c: char) -> Seq<Seq<char>> {
    split_from(s, 0, c)
}

/// `line` without a carriage return at its end.
pub open spec fn without_return(line: Seq<char>) -> Seq<char> {
    if line.len() > 0 && line.last() == '\r' {
        line.drop_last()
    } else {
        line
    }
}

/// The lines of `s` from `from` on. A line ends with a line feed, before
/// which a carriage return is dropped; the last line needs no line feed,
/// and behind the last line feed no empty line follows.
pub open spec fn lines_from(s: Seq<char>, from: int) -> Seq<Seq<char>>
    decreases s.len() - from,
{
    let at = seek(s, from, '\n');
    if from < 0 || from >= s.len() {
        Seq::empty()
    } else if at < from || at >= s.len() {
        seq![s.subrange(from, s.len() as int)]
    } else {
        seq![without_return(s.subrange(from, at))] + lines_from(s, at + 1)
    }
}

/// The lines of `s`.
pub open spec fn lines(s: Seq<char>) -> Seq<Seq<char>> {
    lines_from(s, 0)
}

/// `pattern` stands in `s` at the place `at`.
pub open spec fn occurs_at(s: Seq<char>, pattern: Seq<char>, at: int) -> bool {
    0 <= at && at + pattern.len() <= s.len() && s.subrange(at, at + pattern.len()) == pattern
}

/// The first place at or after `from` at which `pattern` stands in `s`, or
/// `-1` if there is none.
pub open spec fn find_from(s: Seq<char>, pattern: Seq<char>, from: int) -> int
    decreases s.len() - from,
{
    if from < 0 || from + pattern.len() > s.len() {
        -1
    } else if occurs_at(s, pattern, from) {
        from
    } else if from >= s.len() {
        -1
    } else {
        find_from(s, pattern, from + 1)
    }
}

/// The first place at which `pattern` stands in `s`, or `-1`.
pub open spec fn find(s: Seq<char>, pattern: Seq<char>) -> int {
    find_from(s, pattern, 0)
}

/// Tells whether two texts are the same.
pub fn same(a: &[char], b: &[char]) -> (equal: bool)
    ensures
        equal == (a@ == b@),
{
    if a.len() != b.len() {
        return false;
    }
    let mut i: usize = 0;
    while i < a.len()
        invariant
            0 <= i <= a@.len(),
            a@.len() == b@.len(),
            forall|j: int| 0 <= j < i ==> a@[j] == b@[j],
        decreases a@.len() - i,
    {
        if a[i] != b[i] {
            return false;
        }
        i += 1;
    }
    assert(a@ =~= b@);
    true
}

/// Tells whether `pattern` stands in `text` at the place `at`.
fn stands_at(text: &[char], pattern: &[char], at: usize) -> (there: bool)
    requires
        at + pattern@.len() <= text@.len(),
    ensures
        there == occurs_at(text@, pattern@, at as int),
{
    assert(text@.len() == text.len());
    same(slice_subrange(text, at, at + pattern.len()), pattern)
}

/// The first place at which `pattern` stands in `text`.
pub fn find_text(text: &[char], pattern: &[char]) -> (found: Option<usize>)
    ensures
        match found {
            Some(at) => at == find(text@, pattern@) && at + pattern@.len() <= text@.len(),
            None => find(text@, pattern@) == -1,
        },
{
    if pattern.len() > text.len() {
        return None;
    }
    let last: usize = text.len() - pattern.len();
    let mut at: usize = 0;
    loop
        invariant
            0 <= at <= last,
            last == text@.len() - pattern@.len(),
            find(text@, pattern@) == find_from(text@, pattern@, at as int),
        decreases last - at,
    {
        if stands_at(text, pattern, at) {
            return Some(at);
        }
        if at == last {
            assert(find_from(text@, pattern@, at + 1) == -1);
            return None;
        }
        at += 1;
    }
}

/// Cuts `text` at every `c`.
pub fn split_text<'a>(text: &'a [char], c: char) -> (cut: Vec<&'a [char]>)
    ensures
        pieces(cut@) == split(text@, c),
{
    let mut cut: Vec<&'a [char]> = Vec::new();
    let mut from: usize = 0;
    proof {
        assert(pieces(cut@) =~= Seq::<Seq<char>>::empty());
    }
    loop
        invariant_except_break
            pieces(cut@) + split_from(text@, from as int, c) == split(text@, c),
        invariant
            0 <= from <= text@.len(),
        ensures
            pieces(cut@) == split(text@, c),
        decreases text@.len() - from,
    {
        let ghost before = pieces(cut@);
        let at = find_char(text, from, c);
        cut.push(slice_subrange(text, from, at));
        proof {
            assert(pieces(cut@) =~= before.push(text@.subrange(from as int, at as int)));
        }
        if at >= text.len() {
            proof {
                assert(before.push(text@.subrange(from as int, at as int)) =~= before + seq![
                    text@.subrange(from as int, text@.len() as int),
                ]);
            }
            break ;
        }
        proof {
            assert(before + (seq![text@.subrange(from as int, at as int)] + split_from(
                text@,
                at + 1,
                c,
            )) =~= before.push(text@.subrange(from as int, at as int)) + split_from(
                text@,
                at + 1,
                c,
            ));
        }
        from = at + 1;
    }
    cut
}

/// Cuts `text` into its lines.
pub fn split_lines<'a>(text: &'a [char]) -> (cut: Vec<&'a [char]>)
    ensures
        pieces(cut@) == lines(text@),
{
    let mut cut: Vec<&'a [char]> = Vec::new();
    let mut from: usize = 0;
    proof {
        assert(pieces(cut@) =~= Seq::<Seq<char>>::empty());
    }
    while from < text.len()
        invariant
            0 <= from <= text@.len(),
            pieces(cut@) + lines_from(text@, from as int) == lines(text@),
        decreases text@.len() - from,
    {
        let ghost before = pieces(cut@);
        let at = find_char(text, from, '\n');
        if at >= text.len() {
            cut.push(slice_subrange(text, from, at));
            proof {
                assert(pieces(cut@) =~= before + seq![
                    text@.subrange(from as int, text@.len() as int),
                ]);
                assert(lines_from(text@, text@.len() as int) =~= Seq::<Seq<char>>::empty());
                assert(pieces(cut@) + lines_from(text@, text@.len() as int) =~= pieces(cut@));
            }
            from = text.len();
        } else {
            let end: usize = if at > from && text[at - 1] == '\r' {
                at - 1
            } else {
                at
            };
            cut.push(slice_subrange(text, from, end));
            proof {
                let line = text@.subrange(from as int, at as int);
                assert(text@.subrange(from as int, end as int) =~= without_return(line));
                assert(pieces(cut@) =~= before.push(without_return(line)));
                assert(before + (seq![without_return(line)] + lines_from(text@, at + 1))
                    =~= before.push(without_return(line)) + lines_from(text@, at + 1));
            }
            from = at + 1;
        }
    }
    proof {
        assert(lines_from(text@, from as int) =~= Seq::<Seq<char>>::empty());
        assert(pieces(cut@) + Seq::<Seq<char>>::empty() =~= pieces(cut@));
    }
    cut
}

/// `at` is what `seek` finds when it is the first place from `from` on
/// that holds `c`, or the end of a text without `c`.
pub proof fn lemma_seek_is(s: Seq<char>, from: int, c: char, at: int)
    requires
        0 <= from <= at <= s.len(),
        forall|i: int| from <= i < at ==> #[trigger] s[i] != c,
        at < s.len() ==> s[at] == c,
    ensures
        seek(s, from, c) == at,
    decreases at - from,
{
    if from < at {
        lemma_seek_is(s, from + 1, c, at);
    }
}

/// Whether `c` is a decimal digit.
pub open spec fn is_digit(c: char) -> bool {
    '0' <= c <= '9'
}

/// The number that the decimal digit `c` stands for.
pub open spec fn digit_of(c: char) -> nat {
    (c as u32 - '0' as u32) as nat
}

/// Every character of `s` is a decimal digit.
pub open spec fn all_digits(s: Seq<char>) -> bool {
    forall|i: int| 0 <= i < s.len() ==> is_digit(#[trigger] s[i])
}

/// The number that the decimal digits `s` spell; zero for no digits.
pub open spec fn digits_value(s: Seq<char>) -> nat
    decreases s.len(),
{
    if s.len() == 0 {
        0
    } else {
        digits_value(s.drop_last()) * 10 + digit_of(s.last())
    }
}

/// The number without its sign.
pub open spec fn unsigned(s: Seq<char>) -> Seq<char> {
    if s.len() > 0 && (s[0] == '+' || s[0] == '-') {
        s.subrange(1, s.len() as int)
    } else {
        s
    }
}

/// What stands before the decimal point of the number.
pub open spec fn whole_part(s: Seq<char>) -> Seq<char> {
    unsigned(s).subrange(0, seek(unsigned(s), 0, '.'))
}

/// What stands behind the decimal point of the number.
pub open spec fn fraction_part(s: Seq<char>) -> Seq<char> {
    let point = seek(unsigned(s), 0, '.');
    if 0 <= point < unsigned(s).len() {
        unsigned(s).subrange(point + 1, unsigned(s).len() as int)
    } else {
        Seq::empty()
    }
}

/// `s` is a decimal number: an optional sign, digits, and optionally a
/// decimal point with digits behind it; at least one digit in all.
pub open spec fn is_decimal(s: Seq<char>) -> bool {
    &&& all_digits(whole_part(s))
    &&& all_digits(fraction_part(s))
    &&& whole_part(s).len() + fraction_part(s).len() > 0
}

/// The first six digits behind the decimal point, as a number of
/// millionths.
pub open spec fn millionths(fraction: Seq<char>) -> nat {
    if fraction.len() >= 6 {
        digits_value(fraction.subrange(0, 6))
    } else {
        digits_value(fraction) * power(10, (6 - fraction.len()) as nat)
    }
}

/// The decimal number `s` without its sign, in millionths, rounded down.
pub open spec fn magnitude(s: Seq<char>) -> nat {
    digits_value(whole_part(s)) * 1_000_000 + millionths(fraction_part(s))
}

/// The decimal number `s` in millionths, rounded towards zero.
pub open spec fn number(s: Seq<char>) -> Result<i64, ParseError> {
    if !is_decimal(s) {
        Err(ParseError::NotANumber)
    } else if magnitude(s) > i64::MAX {
        Err(ParseError::NumberOutOfRange)
    } else if s[0] == '-' {
        Ok((-magnitude(s)) as i64)
    } else {
        Ok(magnitude(s) as i64)
    }
}

/// Digits spell a number below the power of ten of their count.
proof fn lemma_digits_bound(s: Seq<char>)
    requires
        all_digits(s),
    ensures
        digits_value(s) < power(10, s.len()),
    decreases s.len(),
{
    if s.len() > 0 {
        let front = s.drop_last();
        assert forall|i: int| 0 <= i < front.len() implies is_digit(#[trigger] front[i]) by {
            assert(front[i] == s[i]);
        }
        lemma_digits_bound(front);
        assert(is_digit(s[s.len() - 1]));
    }
}

/// The number that the decimal digit `c` stands for, if it is one.
fn digit(c: char) -> (value: Option<u8>)
    ensures
        match value {
            Some(d) => is_digit(c) && d == digit_of(c) && d <= 9,
            None => !is_digit(c),
        },
{
    if '0' <= c && c <= '9' {
        Some(((c as u32) - ('0' as u32)) as u8)
    } else {
        None
    }
}

/// Reads a decimal number as a number of millionths. Digits behind the
/// sixth behind the decimal point are checked and then left out.
pub fn parse_number(text: &[char]) -> (value: Result<i64, ParseError>)
    ensures
        value == number(text@),
{
    let n: usize = text.len();
    let negative: bool = n > 0 && text[0] == '-';
    let first: usize = if n > 0 && (text[0] == '+' || text[0] == '-') {
        1
    } else {
        0
    };
    let ghost body = unsigned(text@);
    assert(body =~= text@.subrange(first as int, n as int));
    let mut i: usize = first;
    let mut whole: u128 = 0;
    proof {
        assert(body.subrange(0, 0) =~= Seq::<char>::empty());
    }
    while i < n && text[i] != '.'
        invariant
            first <= i <= n,
            n == text@.len(),
            body == unsigned(text@),
            body == text@.subrange(first as int, n as int),
            forall|j: int| 0 <= j < i - first ==> is_digit(#[trigger] body[j]),
            whole <= 0x8000_0000_0000_0000,
            whole == if digits_value(body.subrange(0, i - first)) < 0x8000_0000_0000_0000 {
                digits_value(body.subrange(0, i - first))
            } else {
                0x8000_0000_0000_0000
            },
        decreases n - i,
    {
        let ghost k = i - first;
        proof {
            assert(body[k] == text@[i as int]);
            assert(body.subrange(0, k + 1).drop_last() =~= body.subrange(0, k));
            assert(body.subrange(0, k + 1).last() == body[k]);
        }
        match digit(text[i]) {
            Some(d) => {
                let next: u128 = whole * 10 + d as u128;
                whole = if next < 0x8000_0000_0000_0000 {
                    next
                } else {
                    0x8000_0000_0000_0000
                };
            },
            None => {
                proof {
                    lemma_seek(body, 0, '.');
                    let point = seek(body, 0, '.');
                    if point <= k {
                        assert(body[point] == '.');
                        if point < k {
                            assert(is_digit(body[point]));
                        }
                        assert(false);
                    }
                    assert(whole_part(text@) =~= body.subrange(0, point));
                    assert(whole_part(text@)[k] == body[k]);
                    assert(!is_digit(whole_part(text@)[k]));
                    assert(!all_digits(whole_part(text@)));
                }
                return Err(ParseError::NotANumber);
            },
        }
        i += 1;
    }
    let ghost point = i - first;
    proof {
        lemma_seek_is(body, 0, '.', point);
        assert(whole_part(text@) =~= body.subrange(0, point));
    }
    let whole_len: usize = i - first;
    let mut fraction: u128 = 0;
    let mut taken: usize = 0;
    let mut fraction_len: usize = 0;
    let ghost rest = fraction_part(text@);
    if i < n {
        i += 1;
        let after: usize = i;
        proof {
            assert(rest =~= text@.subrange(after as int, n as int));
            assert(rest.subrange(0, 0) =~= Seq::<char>::empty());
            reveal_with_fuel(power, 2);
        }
        while i < n
            invariant
                after <= i <= n,
                n == text@.len(),
                rest == fraction_part(text@),
                rest == text@.subrange(after as int, n as int),
                fraction_len == i - after,
                taken == if fraction_len < 6 {
                    fraction_len
                } else {
                    6
                },
                forall|j: int| 0 <= j < fraction_len ==> is_digit(#[trigger] rest[j]),
                fraction == digits_value(rest.subrange(0, taken as int)),
                fraction < power(10, taken as nat),
            decreases n - i,
        {
            let ghost k = i - after;
            proof {
                assert(rest[k] == text@[i as int]);
            }
            match digit(text[i]) {
                Some(d) => {
                    if taken < 6 {
                        proof {
                            assert(rest.subrange(0, k + 1).drop_last() =~= rest.subrange(0, k));
                            assert(rest.subrange(0, k + 1).last() == rest[k]);
                            lemma_power_ten(taken as nat);
                            assert(power(10, (taken + 1) as nat) == 10 * power(10, taken as nat));
                            lemma_power_ten_small(taken as nat);
                        }
                        fraction = fraction * 10 + d as u128;
                        taken += 1;
                    }
                },
                None => {
                    proof {
                        assert(!is_digit(rest[k]));
                        assert(!all_digits(rest));
                    }
                    return Err(ParseError::NotANumber);
                },
            }
            fraction_len += 1;
            i += 1;
        }
    } else {
        proof {
            assert(rest =~= Seq::<char>::empty());
            assert(rest.subrange(0, 0) =~= Seq::<char>::empty());
            reveal_with_fuel(power, 2);
        }
    }
    if whole_len == 0 && fraction_len == 0 {
        return Err(ParseError::NotANumber);
    }
    proof {
        if rest.len() < 6 {
            assert(rest.subrange(0, taken as int) =~= rest);
        }
        reveal_with_fuel(power, 8);
        assert(power(10, 0) == 1);
        assert(fraction * 1 == fraction) by (nonlinear_arith);
    }
    let ghost digits = fraction as nat;
    let mut padded: usize = taken;
    while padded < 6
        invariant
            taken <= padded <= 6,
            fraction == digits * power(10, (padded - taken) as nat),
            fraction < power(10, padded as nat),
        decreases 6 - padded,
    {
        proof {
            lemma_power_ten(padded as nat);
            lemma_power_ten_small(padded as nat);
            lemma_power_ten((padded - taken) as nat);
            let p = power(10, (padded - taken) as nat);
            assert((digits * p) * 10 == digits * (10 * p)) by (nonlinear_arith);
        }
        fraction = fraction * 10;
        padded += 1;
    }
    proof {
        reveal_with_fuel(power, 8);
        assert(power(10, 6) == 1_000_000);
        assert(fraction == millionths(rest));
    }
    if whole >= 0x8000_0000_0000_0000 {
        proof {
            assert(digits_value(whole_part(text@)) * 1_000_000 >= 0x8000_0000_0000_0000)
                by (nonlinear_arith)
                requires
                    digits_value(whole_part(text@)) >= 0x8000_0000_0000_0000,
            ;
        }
        return Err(ParseError::NumberOutOfRange);
    }
    let total: u128 = whole * 1_000_000 + fraction;
    if total > 0x7fff_ffff_ffff_ffff {
        return Err(ParseError::NumberOutOfRange);
    }
    if negative {
        Ok(-(total as i64))
    } else {
        Ok(total as i64)
    }
}

/// The powers of ten up to the sixth are at most a million.
proof fn lemma_power_ten_small(e: nat)
    requires
        e <= 6,
    ensures
        power(10, e) <= 1_000_000,
        e < 6 ==> power(10, e) <= 100_000,
{
    reveal_with_fuel(power, 8);
}

/// A power of ten is positive, and the next one is ten times as large.
proof fn lemma_power_ten(e: nat)
    ensures
        power(10, e) > 0,
        power(10, e + 1) == 10 * power(10, e),
    decreases e,
{
    if e > 0 {
        lemma_power_ten((e - 1) as nat);
    }
}

/// What the column of an attribute of the type `name` holds before any
/// value is read.
pub open spec fn content_of_type(name: Seq<char>) -> Content {
    if name == "numeric"@ {
        Content::Numeric(Seq::empty())
    } else if name == "string"@ {
        Content::Text(Seq::empty())
    } else if name == "date"@ {
        Content::Date(0)
    } else if name == "real"@ {
        Content::Real(Seq::empty())
    } else {
        Content::NotImplemented(name)
    }
}

/// The first word of each of the first `upto` of `texts`, or the first
/// failure to find one.
pub open spec fn words_of(texts: Seq<Seq<char>>, upto: nat) -> Result<Seq<Seq<char>>, ParseError>
    decreases upto,
{
    if upto == 0 {
        Ok(Seq::empty())
    } else {
        match words_of(texts, (upto - 1) as nat) {
            Err(error) => Err(error),
            Ok(words) => match word_at(texts[upto - 1], 0) {
                Err(error) => Err(error),
                Ok(extent) => Ok(words.push(texts[upto - 1].subrange(extent.start, extent.end))),
            },
        }
    }
}

/// The fields of a nominal attribute that are declared in `s` from `from`
/// on, and the place behind the declaration: between the next opening brace
/// and the next closing brace behind it, every comma ends a field, and each
/// field is the first word of its piece.
pub open spec fn nominal_at(s: Seq<char>, from: int) -> Result<(Seq<Seq<char>>, int), ParseError> {
    let open = seek(s, from, '{');
    if open >= s.len() {
        Err(ParseError::MissingOpeningBrace)
    } else {
        let close = seek(s, open, '}');
        if close >= s.len() {
            Err(ParseError::MissingClosingBrace)
        } else {
            let inside = split(s.subrange(open + 1, close), ',');
            match words_of(inside, inside.len()) {
                Err(error) => Err(error),
                Ok(fields) => Ok((fields, close + 1)),
            }
        }
    }
}

/// The attribute that is declared in `s` from `from` on, and the place
/// behind the declaration: a label, and then either the fields of a nominal
/// attribute in braces or the name of a type.
pub open spec fn declaration_at(s: Seq<char>, from: int) -> Result<(Declared, int), ParseError> {
    match word_at(s, from) {
        Err(error) => Err(error),
        Ok(label) => {
            let at = skip_white(s, label.next);
            if at >= s.len() {
                Err(ParseError::EndOfFile)
            } else if s[at] as u32 >= 128 {
                Err(ParseError::UnreadableCharacter)
            } else if s[at] == '{' {
                match nominal_at(s, label.next) {
                    Err(error) => Err(error),
                    Ok((fields, next)) => Ok(
                        (
                            Declared {
                                label: s.subrange(label.start, label.end),
                                content: Content::Nominal { fields, data: Seq::empty() },
                            },
                            next,
                        ),
                    ),
                }
            } else {
                match word_at(s, label.next) {
                    Err(error) => Err(error),
                    Ok(kind) => Ok(
                        (
                            Declared {
                                label: s.subrange(label.start, label.end),
                                content: content_of_type(s.subrange(kind.start, kind.end)),
                            },
                            kind.next,
                        ),
                    ),
                }
            }
        },
    }
}

/// What a column holds after the value written as `cell` was added to it.
/// A number is read as a decimal number; a name or a text is the first word
/// of `cell`, and a name must be one of the fields.
pub open spec fn absorb(content: Content, cell: Seq<char>) -> Result<Content, ParseError> {
    match content {
        Content::Numeric(values) => match number(cell) {
            Err(error) => Err(error),
            Ok(value) => Ok(Content::Numeric(values.push(value))),
        },
        Content::Real(values) => match number(cell) {
            Err(error) => Err(error),
            Ok(value) => Ok(Content::Real(values.push(value))),
        },
        Content::Nominal { fields, data } => match word_at(cell, 0) {
            Err(error) => Err(error),
            Ok(extent) => {
                let word = cell.subrange(extent.start, extent.end);
                if field_ids(fields).contains_key(word) {
                    Ok(Content::Nominal { fields, data: data.push(field_ids(fields)[word]) })
                } else {
                    Err(ParseError::UnknownField)
                }
            },
        },
        Content::Text(values) => match word_at(cell, 0) {
            Err(error) => Err(error),
            Ok(extent) => Ok(Content::Text(values.push(cell.subrange(extent.start, extent.end)))),
        },
        Content::Date(_) => Err(ParseError::UnsupportedType),
        Content::NotImplemented(_) => Err(ParseError::UnsupportedType),
    }
}

/// What the columns hold after the first `upto` of `cells` were added, the
/// first cell to the first column and so on.
pub open spec fn absorb_row(columns: Seq<Content>, cells: Seq<Seq<char>>, upto: nat) -> Result<
    Seq<Content>,
    ParseError,
>
    decreases upto,
{
    if upto == 0 {
        Ok(columns)
    } else {
        match absorb_row(columns, cells, (upto - 1) as nat) {
            Err(error) => Err(error),
            Ok(filled) => if upto - 1 >= filled.len() {
                Err(ParseError::TooManyValues)
            } else {
                match absorb(filled[upto - 1], cells[upto - 1]) {
                    Err(error) => Err(error),
                    Ok(content) => Ok(filled.update(upto - 1, content)),
                }
            },
        }
    }
}

/// What the columns hold after the first `upto` of `rows` were added, each
/// cut into its cells at the commas.
pub open spec fn absorb_rows(columns: Seq<Content>, rows: Seq<Seq<char>>, upto: nat) -> Result<
    Seq<Content>,
    ParseError,
>
    decreases upto,
{
    if upto == 0 {
        Ok(columns)
    } else {
        match absorb_rows(columns, rows, (upto - 1) as nat) {
            Err(error) => Err(error),
            Ok(filled) => {
                let cells = split(rows[upto - 1], ',');
                absorb_row(filled, cells, cells.len())
            },
        }
    }
}

/// `line` without the white space at its start.
pub open spec fn trimmed(line: Seq<char>) -> Seq<char> {
    line.subrange(skip_white(line, 0), line.len() as int)
}

/// The attributes that the first `upto` of `lines` declare, in order. A
/// line declares an attribute when its first word is `@attribute`; empty
/// lines and lines that start with `%` are passed over unread.
pub open spec fn declarations(lines: Seq<Seq<char>>, upto: nat) -> Result<Seq<Declared>, ParseError>
    decreases upto,
{
    if upto == 0 {
        Ok(Seq::empty())
    } else {
        match declarations(lines, (upto - 1) as nat) {
            Err(error) => Err(error),
            Ok(declared) => {
                let line = trimmed(lines[upto - 1]);
                if line.len() == 0 || line[0] == '%' {
                    Ok(declared)
                } else {
                    match word_at(line, 0) {
                        Err(error) => Err(error),
                        Ok(first) => if line.subrange(first.start, first.end) == "@attribute"@ {
                            match declaration_at(line, first.next) {
                                Err(error) => Err(error),
                                Ok((attribute, _)) => Ok(declared.push(attribute)),
                            }
                        } else {
                            Ok(declared)
                        },
                    }
                }
            },
        }
    }
}

/// What each of `declared` holds.
pub open spec fn contents(declared: Seq<Declared>) -> Seq<Content> {
    Seq::new(declared.len(), |a: int| declared[a].content)
}

/// `declared` with `columns` in place of what they hold.
pub open spec fn filled(declared: Seq<Declared>, columns: Seq<Content>) -> Seq<Declared> {
    Seq::new(
        declared.len(),
        |a: int| Declared { label: declared[a].label, content: columns[a] },
    )
}

/// The name of the relation that `s` describes: the word behind the first
/// `@relation`.
pub open spec fn relation_name(s: Seq<char>) -> Result<Seq<char>, ParseError> {
    let tag = find(s, "@relation"@);
    if tag < 0 {
        Err(ParseError::NoRelationTag)
    } else {
        match word_at(s, tag + "@relation"@.len()) {
            Err(error) => Err(error),
            Ok(extent) => Ok(s.subrange(extent.start, extent.end)),
        }
    }
}

/// The relation that `s` describes: its name and its attributes with their
/// values.
///
/// The attributes are declared line by line before the first `@data`. What
/// follows `@data`, after white space, is one row of values in each line.
pub open spec fn relation_in(s: Seq<char>) -> Result<(Seq<char>, Seq<Declared>), ParseError> {
    match relation_name(s) {
        Err(error) => Err(error),
        Ok(name) => {
            let tag = find(s, "@data"@);
            if tag < 0 {
                Err(ParseError::NoDataTag)
            } else {
                let head = lines(s.subrange(0, tag));
                match declarations(head, head.len()) {
                    Err(error) => Err(error),
                    Ok(declared) => {
                        let start = skip_white(s, tag + "@data"@.len());
                        let rows = lines(s.subrange(start, s.len() as int));
                        match absorb_rows(contents(declared), rows, rows.len()) {
                            Err(error) => Err(error),
                            Ok(columns) => Ok((name, filled(declared, columns))),
                        }
                    },
                }
            }
        },
    }
}

impl<'a> Parser<'a> {
    /// Reads the fields of a nominal attribute and moves behind the closing
    /// brace. On failure the reader stays where it is.
    pub fn parse_nominal(&mut self) -> (data: Result<Data, ParseError>)
        requires
            old(self).wf(),
        ensures
            final(self).wf(),
            final(self).text() == old(self).text(),
            match nominal_at(old(self).text(), old(self).position()) {
                Ok((fields, next)) => data matches Ok(column) && column.wf() && column.content() == (
                Content::Nominal { fields, data: Seq::empty() }) && final(self).position() == next,
                Err(error) => data matches Err(found) && found == error && final(self).position()
                    == old(self).position(),
            },
    {
        let text: &'a [char] = self.raw_data;
        proof {
            lemma_seek(text@, self.index as int, '{');
        }
        let open = find_char(text, self.index, '{');
        if open >= text.len() {
            return Err(ParseError::MissingOpeningBrace);
        }
        proof {
            lemma_seek(text@, open as int, '}');
        }
        let close = find_char(text, open, '}');
        if close >= text.len() {
            return Err(ParseError::MissingClosingBrace);
        }
        let inside = split_text(slice_subrange(text, open + 1, close), ',');
        let ghost cut = pieces(inside@);
        let mut fields: Vec<String> = Vec::new();
        let mut i: usize = 0;
        proof {
            assert(texts(fields@) =~= Seq::<Seq<char>>::empty());
        }
        while i < inside.len()
            invariant
                0 <= i <= inside@.len(),
                *self == *old(self),
                old(self).wf(),
                text@ == old(self).text(),
                open == seek(text@, old(self).position(), '{'),
                close == seek(text@, open as int, '}'),
                open <= close < text@.len(),
                cut == pieces(inside@),
                cut == split(text@.subrange(open + 1, close as int), ','),
                words_of(cut, i as nat) == Ok::<Seq<Seq<char>>, ParseError>(texts(fields@)),
            decreases inside@.len() - i,
        {
            let mut reader = Parser::new(inside[i], 0);
            let ghost before = texts(fields@);
            match reader.parse_string() {
                Ok(word) => {
                    fields.push(text_of(word));
                    proof {
                        assert(cut[i as int] == inside@[i as int]@);
                        assert(texts(fields@) =~= before.push(word@));
                    }
                },
                Err(error) => {
                    proof {
                        assert(cut[i as int] == inside@[i as int]@);
                        assert(words_of(cut, (i + 1) as nat) == Err::<Seq<Seq<char>>, ParseError>(
                            error,
                        ));
                        lemma_words_fail(cut, (i + 1) as nat, cut.len());
                    }
                    return Err(error);
                },
            }
            i += 1;
        }
        self.index = close + 1;
        Ok(Data::Nominal(Box::new(Nominal::new(fields))))
    }

    /// Reads the declaration of an attribute: its label, and then its
    /// fields or the name of its type. On failure the reader stays where it
    /// is.
    pub fn parse_attribute(&mut self) -> (attribute: Result<Attribute, ParseError>)
        requires
            old(self).wf(),
        ensures
            final(self).wf(),
            final(self).text() == old(self).text(),
            match declaration_at(old(self).text(), old(self).position()) {
                Ok((declared, next)) => attribute matches Ok(found) && found.data.wf()
                    && found.declared() == declared && final(self).position() == next,
                Err(error) => attribute matches Err(found) && found == error
                    && final(self).position() == old(self).position(),
            },
    {
        let text: &'a [char] = self.raw_data;
        let from: usize = self.index;
        proof {
            lemma_word_at(text@, from as int);
        }
        let label = match self.parse_string() {
            Ok(word) => text_of(word),
            Err(error) => {
                return Err(error);
            },
        };
        let at = pass_white(text, self.index);
        if at >= text.len() {
            self.index = from;
            return Err(ParseError::EndOfFile);
        }
        if text[at] as u32 >= 128 {
            self.index = from;
            return Err(ParseError::UnreadableCharacter);
        }
        let data = if text[at] == '{' {
            match self.parse_nominal() {
                Ok(column) => column,
                Err(error) => {
                    self.index = from;
                    return Err(error);
                },
            }
        } else {
            let kind = match self.parse_string() {
                Ok(word) => word,
                Err(error) => {
                    self.index = from;
                    return Err(error);
                },
            };
            if same(kind, chars_of("numeric").as_slice()) {
                Data::Numeric(Vec::new())
            } else if same(kind, chars_of("string").as_slice()) {
                proof {
                    assert(texts(Seq::<String>::empty()) =~= Seq::<Seq<char>>::empty());
                }
                Data::String(Vec::new())
            } else if same(kind, chars_of("date").as_slice()) {
                Data::Date(Vec::new())
            } else if same(kind, chars_of("real").as_slice()) {
                Data::Real(Vec::new())
            } else {
                Data::NotImplemented(text_of(kind))
            }
        };
        Ok(Attribute { label, data })
    }
}

/// Once a word is missing, it stays missing.
proof fn lemma_words_fail(texts: Seq<Seq<char>>, low: nat, upto: nat)
    requires
        low <= upto,
        words_of(texts, low) is Err,
    ensures
        words_of(texts, upto) == words_of(texts, low),
    decreases upto,
{
    if low < upto {
        lemma_words_fail(texts, low, (upto - 1) as nat);
    }
}

impl Attribute {
    /// Adds the value written as `raw_data` to the column. On failure the
    /// column stays as it is.
    pub fn parse_value(&mut self, raw_data: &[char]) -> (done: Result<(), ParseError>)
        requires
            old(self).data.wf(),
        ensures
            final(self).data.wf(),
            final(self).label == old(self).label,
            match absorb(old(self).data.content(), raw_data@) {
                Ok(content) => done is Ok && final(self).data.content() == content,
                Err(error) => done == Err::<(), ParseError>(error) && final(self).data.content()
                    == old(self).data.content(),
            },
    {
        let mut parser = Parser::new(raw_data, 0);
        match &mut self.data {
            Data::Numeric(data) => {
                match parse_number(raw_data) {
                    Ok(value) => data.push(value),
                    Err(error) => {
                        return Err(error);
                    },
                }
            },
            Data::Real(data) => {
                match parse_number(raw_data) {
                    Ok(value) => data.push(value),
                    Err(error) => {
                        return Err(error);
                    },
                }
            },
            Data::Nominal(data) => {
                match parser.parse_string() {
                    Ok(word) => {
                        let name = text_of(word);
                        proof {
                            data.lemma_wf();
                        }
                        if data.get_map().contains_key(name.as_str()) {
                            data.push(name.as_str());
                        } else {
                            return Err(ParseError::UnknownField);
                        }
                    },
                    Err(error) => {
                        return Err(error);
                    },
                }
            },
            Data::String(data) => {
                match parser.parse_string() {
                    Ok(word) => {
                        let ghost before = texts(data@);
                        data.push(text_of(word));
                        proof {
                            assert(texts(data@) =~= before.push(word@));
                        }
                    },
                    Err(error) => {
                        return Err(error);
                    },
                }
            },
            Data::Date(_) => {
                return Err(ParseError::UnsupportedType);
            },
            Data::NotImplemented(_) => {
                return Err(ParseError::UnsupportedType);
            },
        }
        Ok(())
    }
}

/// What `attributes` hold, in order.
pub open spec fn columns_of(attributes: Seq<Attribute>) -> Seq<Content> {
    Seq::new(attributes.len(), |a: int| attributes[a].data.content())
}

/// The attributes as mathematics, in order.
pub open spec fn declared_of(attributes: Seq<Attribute>) -> Seq<Declared> {
    Seq::new(attributes.len(), |a: int| attributes[a].declared())
}

/// Once a row has failed, it stays failed.
proof fn lemma_row_fails(columns: Seq<Content>, cells: Seq<Seq<char>>, low: nat, upto: nat)
    requires
        low <= upto,
        absorb_row(columns, cells, low) is Err,
    ensures
        absorb_row(columns, cells, upto) == absorb_row(columns, cells, low),
    decreases upto,
{
    if low < upto {
        lemma_row_fails(columns, cells, low, (upto - 1) as nat);
    }
}

/// Once a row has failed, the rows behind it change nothing.
proof fn lemma_rows_fail(columns: Seq<Content>, rows: Seq<Seq<char>>, low: nat, upto: nat)
    requires
        low <= upto,
        absorb_rows(columns, rows, low) is Err,
    ensures
        absorb_rows(columns, rows, upto) == absorb_rows(columns, rows, low),
    decreases upto,
{
    if low < upto {
        lemma_rows_fail(columns, rows, low, (upto - 1) as nat);
    }
}

/// Once a declaration has failed, the lines behind it change nothing.
proof fn lemma_declarations_fail(lines: Seq<Seq<char>>, low: nat, upto: nat)
    requires
        low <= upto,
        declarations(lines, low) is Err,
    ensures
        declarations(lines, upto) == declarations(lines, low),
    decreases upto,
{
    if low < upto {
        lemma_declarations_fail(lines, low, (upto - 1) as nat);
    }
}

/// Adds the values of one row, cut into `cells`, to the columns of
/// `attributes`. On failure the cells before the failing one stay added.
fn read_row(attributes: &mut Vec<Attribute>, cells: &Vec<&[char]>) -> (done: Result<
    (),
    ParseError,
>)
    requires
        forall|a: int| 0 <= a < old(attributes)@.len() ==> (#[trigger] old(attributes)@[a]).data.wf(),
    ensures
        final(attributes)@.len() == old(attributes)@.len(),
        forall|a: int| 0 <= a < final(attributes)@.len() ==> (#[trigger] final(attributes)@[a]).data.wf(),
        forall|a: int|
            0 <= a < final(attributes)@.len() ==> (#[trigger] final(attributes)@[a]).label == old(
                attributes,
            )@[a].label,
        match absorb_row(columns_of(old(attributes)@), pieces(cells@), cells@.len()) {
            Ok(columns) => done is Ok && columns_of(final(attributes)@) == columns,
            Err(error) => done == Err::<(), ParseError>(error),
        },
{
    let ghost start = columns_of(attributes@);
    let ghost texts = pieces(cells@);
    let mut index: usize = 0;
    while index < cells.len()
        invariant
            0 <= index <= cells@.len(),
            texts == pieces(cells@),
            start == columns_of(old(attributes)@),
            attributes@.len() == old(attributes)@.len(),
            forall|a: int| 0 <= a < attributes@.len() ==> (#[trigger] attributes@[a]).data.wf(),
            forall|a: int|
                0 <= a < attributes@.len() ==> (#[trigger] attributes@[a]).label == old(
                    attributes,
                )@[a].label,
            absorb_row(start, texts, index as nat) == Ok::<Seq<Content>, ParseError>(
                columns_of(attributes@),
            ),
        decreases cells@.len() - index,
    {
        if index >= attributes.len() {
            proof {
                assert(absorb_row(start, texts, (index + 1) as nat) == Err::<
                    Seq<Content>,
                    ParseError,
                >(ParseError::TooManyValues));
                lemma_row_fails(start, texts, (index + 1) as nat, cells@.len());
            }
            return Err(ParseError::TooManyValues);
        }
        let ghost before = attributes@;
        assert(texts[index as int] == cells@[index as int]@);
        assert(columns_of(before)[index as int] == before[index as int].data.content());
        match attributes[index].parse_value(cells[index]) {
            Ok(()) => {
                proof {
                    assert(columns_of(attributes@) =~= columns_of(before).update(
                        index as int,
                        attributes@[index as int].data.content(),
                    )) by {
                        assert forall|a: int| 0 <= a < before.len() && a != index implies attributes@[a]
                            == before[a] by {}
                    }
                    assert forall|a: int| 0 <= a < attributes@.len() implies (
                    #[trigger] attributes@[a]).data.wf() && attributes@[a].label == old(
                        attributes,
                    )@[a].label by {
                        if a != index {
                            assert(attributes@[a] == before[a]);
                        }
                    }
                }
            },
            Err(error) => {
                proof {
                    assert(absorb_row(start, texts, (index + 1) as nat) == Err::<
                        Seq<Content>,
                        ParseError,
                    >(error));
                    lemma_row_fails(start, texts, (index + 1) as nat, cells@.len());
                }
                return Err(error);
            },
        }
        index += 1;
    }
    Ok(())
}

/// Reads the attributes that `head` declares, line by line.
fn read_declarations(head: &[char]) -> (attributes: Result<Vec<Attribute>, ParseError>)
    ensures
        match declarations(lines(head@), lines(head@).len()) {
            Ok(declared) => attributes matches Ok(found) && declared_of(found@) == declared
                && forall|a: int| 0 <= a < found@.len() ==> (#[trigger] found@[a]).data.wf(),
            Err(error) => attributes matches Err(found) && found == error,
        },
{
    let rows = split_lines(head);
    let ghost all = pieces(rows@);
    let tag = chars_of("@attribute");
    let mut attributes: Vec<Attribute> = Vec::new();
    let mut i: usize = 0;
    proof {
        assert(declared_of(attributes@) =~= Seq::<Declared>::empty());
    }
    while i < rows.len()
        invariant
            0 <= i <= rows@.len(),
            all == pieces(rows@),
            all == lines(head@),
            tag@ == "@attribute"@,
            forall|a: int| 0 <= a < attributes@.len() ==> (#[trigger] attributes@[a]).data.wf(),
            declarations(all, i as nat) == Ok::<Seq<Declared>, ParseError>(
                declared_of(attributes@),
            ),
        decreases rows@.len() - i,
    {
        let row: &[char] = rows[i];
        assert(all[i as int] == row@);
        let start = pass_white(row, 0);
        let line = slice_subrange(row, start, row.len());
        assert(line@ == trimmed(row@));
        if line.len() > 0 && line[0] != '%' {
            let mut parser = Parser::new(line, 0);
            match parser.parse_string() {
                Err(error) => {
                    proof {
                        assert(declarations(all, (i + 1) as nat) == Err::<
                            Seq<Declared>,
                            ParseError,
                        >(error));
                        lemma_declarations_fail(all, (i + 1) as nat, all.len());
                    }
                    return Err(error);
                },
                Ok(first) => {
                    if same(first, tag.as_slice()) {
                        match parser.parse_attribute() {
                            Err(error) => {
                                proof {
                                    assert(declarations(all, (i + 1) as nat) == Err::<
                                        Seq<Declared>,
                                        ParseError,
                                    >(error));
                                    lemma_declarations_fail(all, (i + 1) as nat, all.len());
                                }
                                return Err(error);
                            },
                            Ok(attribute) => {
                                let ghost before = attributes@;
                                attributes.push(attribute);
                                proof {
                                    assert(declared_of(attributes@) =~= declared_of(before).push(
                                        attribute.declared(),
                                    ));
                                    assert forall|a: int| 0 <= a < attributes@.len() implies (
                                    #[trigger] attributes@[a]).data.wf() by {
                                        if a < before.len() {
                                            assert(attributes@[a] == before[a]);
                                        }
                                    }
                                }
                            },
                        }
                    }
                },
            }
        }
        i += 1;
    }
    Ok(attributes)
}

impl DataSet {
    /// Reads a relation from `raw_data`, a text in the attribute-relation
    /// file format: the name behind `@relation`, the attributes that the
    /// lines before `@data` declare, and the rows of values behind it.
    pub fn import(raw_data: &str) -> (data_set: Result<DataSet, ParseError>)
        ensures
            match relation_in(raw_data@) {
                Ok((name, declared)) => data_set matches Ok(found) && found.wf() && found.relation()
                    == name && found.declared() == declared,
                Err(error) => data_set matches Err(found) && found == error,
            },
    {
        let chars = chars_of(raw_data);
        let text: &[char] = chars.as_slice();
        let relation_tag = chars_of("@relation");
        let relation_index = match find_text(text, relation_tag.as_slice()) {
            Some(at) => at,
            None => {
                return Err(ParseError::NoRelationTag);
            },
        };
        assert(text@.len() == text.len());
        let mut parser = Parser::new(text, relation_index + relation_tag.len());
        let relation = match parser.parse_string() {
            Ok(word) => text_of(word),
            Err(error) => {
                return Err(error);
            },
        };
        let data_tag = chars_of("@data");
        let data_index = match find_text(text, data_tag.as_slice()) {
            Some(at) => at,
            None => {
                return Err(ParseError::NoDataTag);
            },
        };
        let mut attributes = match read_declarations(slice_subrange(text, 0, data_index)) {
            Ok(attributes) => attributes,
            Err(error) => {
                return Err(error);
            },
        };
        let ghost declared = declared_of(attributes@);
        assert(text@.len() == text.len());
        let start = pass_white(text, data_index + data_tag.len());
        let rows = split_lines(slice_subrange(text, start, text.len()));
        let ghost all = pieces(rows@);
        let mut i: usize = 0;
        proof {
            assert(columns_of(attributes@) =~= contents(declared));
            assert(text@.subrange(0, data_index as int) == raw_data@.subrange(
                0,
                find(raw_data@, "@data"@),
            ));
        }
        assert(relation_in(raw_data@) == match absorb_rows(contents(declared), all, all.len()) {
            Err(error) => Err::<(Seq<char>, Seq<Declared>), ParseError>(error),
            Ok(columns) => Ok((relation@, filled(declared, columns))),
        });
        while i < rows.len()
            invariant
                0 <= i <= rows@.len(),
                all == pieces(rows@),
                relation_in(raw_data@) == match absorb_rows(contents(declared), all, all.len()) {
                    Err(error) => Err::<(Seq<char>, Seq<Declared>), ParseError>(error),
                    Ok(columns) => Ok((relation@, filled(declared, columns))),
                },
                attributes@.len() == declared.len(),
                forall|a: int| 0 <= a < attributes@.len() ==> (#[trigger] attributes@[a]).data.wf(),
                forall|a: int|
                    0 <= a < attributes@.len() ==> (#[trigger] attributes@[a]).label@
                        == declared[a].label,
                absorb_rows(contents(declared), all, i as nat) == Ok::<Seq<Content>, ParseError>(
                    columns_of(attributes@),
                ),
            decreases rows@.len() - i,
        {
            let cells = split_text(rows[i], ',');
            assert(all[i as int] == rows@[i as int]@);
            match read_row(&mut attributes, &cells) {
                Ok(()) => {},
                Err(error) => {
                    proof {
                        assert(absorb_rows(contents(declared), all, (i + 1) as nat) == Err::<
                            Seq<Content>,
                            ParseError,
                        >(error));
                        lemma_rows_fail(contents(declared), all, (i + 1) as nat, all.len());
                    }
                    return Err(error);
                },
            }
            i += 1;
        }
        proof {
            assert(declared_of(attributes@) =~= filled(declared, columns_of(attributes@)));
        }
        let data_set = DataSet::new(relation, attributes);
        proof {
            assert(data_set.declared() =~= declared_of(data_set.attributes()));
        }
        Ok(data_set)
    }
}

} // verus!
