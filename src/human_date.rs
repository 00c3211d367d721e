//! Dates as people write them in reference metadata: a month (in full or
//! abbreviated, optionally followed by a period) and a year, or a year alone.

use core::ops::Range;
use vstd::prelude::*;
use vstd::string::*;
use vstd::utf8::*;

use crate::text::lemma_encode_concat;

verus! {

/// Explanation attached to a malformed date element.
pub const EXPECTED_FORMAT: &'static str =
    "Dates must be a month (written in full or abbreviated with an optional period) followed by an integer year";

/// Explanation attached to an unknown month name.
pub const MONTH_EXPECTED: &'static str =
    "Months must be written either in full, or with a three-letter abbreviation (except for March, April, May, June, and July)";

/// Explanation attached to a malformed year.
pub const YEAR_EXPECTED: &'static str = "Years must be written as a positive integer";

/// Explanation attached to a misplaced period.
pub const PUNCTUATION_EXPECTED: &'static str =
    "A period after the month is only allowed if it is abbreviated";

#[derive(Debug, Clone, Copy, PartialEq, Eq, Structural)]
pub enum Month {
    January,
    February,
    March,
    April,
    May,
    June,
    July,
    August,
    September,
    October,
    November,
    December,
}

/// A year, with the month when one was given.
#[derive(Debug, Clone, Copy, PartialEq, Eq, Structural)]
pub struct HumanDate {
    pub year: u32,
    pub month: Option<Month>,
}

/// A month as read from its name, and whether the name was abbreviated.
#[derive(Debug, Clone, Copy, PartialEq, Eq, Structural)]
pub struct MonthParse {
    pub month: Month,
    pub is_short: bool,
}

impl MonthParse {
    pub fn new(month: Month, is_short: bool) -> (r: MonthParse)
        ensures
            r == (MonthParse { month, is_short }),
    {
        MonthParse { month, is_short }
    }
}

/// The accepted month names, with what each one reads as.
pub open spec fn month_table() -> Seq<(Seq<char>, MonthParse)> {
    seq![
        ("January"@, MonthParse { month: Month::January, is_short: false }),
        ("Jan"@, MonthParse { month: Month::January, is_short: true }),
        ("February"@, MonthParse { month: Month::February, is_short: false }),
        ("Feb"@, MonthParse { month: Month::February, is_short: true }),
        ("March"@, MonthParse { month: Month::March, is_short: false }),
        ("April"@, MonthParse { month: Month::April, is_short: false }),
        ("May"@, MonthParse { month: Month::May, is_short: false }),
        ("June"@, MonthParse { month: Month::June, is_short: false }),
        ("July"@, MonthParse { month: Month::July, is_short: false }),
        ("August"@, MonthParse { month: Month::August, is_short: false }),
        ("Aug"@, MonthParse { month: Month::August, is_short: true }),
        ("September"@, MonthParse { month: Month::September, is_short: false }),
        ("Sept"@, MonthParse { month: Month::September, is_short: true }),
        ("October"@, MonthParse { month: Month::October, is_short: false }),
        ("Oct"@, MonthParse { month: Month::October, is_short: true }),
        ("November"@, MonthParse { month: Month::November, is_short: false }),
        ("Nov"@, MonthParse { month: Month::November, is_short: true }),
        ("December"@, MonthParse { month: Month::December, is_short: false }),
        ("Dec"@, MonthParse { month: Month::December, is_short: true }),
    ]
}

/// What `name` reads as, taking the first entry of `table` from `k` on that spells it.
pub open spec fn lookup_month(table: Seq<(Seq<char>, MonthParse)>, name: Seq<char>, k: nat) -> Option<
    MonthParse,
>
    decreases table.len() - k,
{
    if k >= table.len() {
        None
    } else if table[k as int].0 == name {
        Some(table[k as int].1)
    } else {
        lookup_month(table, name, k + 1)
    }
}

/// The month that `name` spells, if any.
pub open spec fn month_named(name: Seq<char>) -> Option<MonthParse> {
    lookup_month(month_table(), name, 0)
}

fn same_text(a: &str, b: &str) -> (r: bool)
    ensures
        r == (a@ == b@),
{
    let x = a.as_bytes();
    let y = b.as_bytes();
    proof {
        encode_utf8_decode_utf8(a@);
        encode_utf8_decode_utf8(b@);
        assert(x@ == encode_utf8(a@));
        assert(y@ == encode_utf8(b@));
    }
    if x.len() != y.len() {
        assert(a@ == b@ ==> x@ == y@);
        return false;
    }
    let mut i: usize = 0;
    while i < x.len()
        invariant
            x@.len() == y@.len(),
            x@ == encode_utf8(a@),
            y@ == encode_utf8(b@),
            i <= x@.len(),
            forall|k: int| 0 <= k < i ==> x@[k] == y@[k],
        decreases x@.len() - i,
    {
        if x[i] != y[i] {
            assert(a@ == b@ ==> x@ == y@);
            return false;
        }
        i = i + 1;
    }
    assert(x@ =~= y@);
    true
}

impl Month {
    /// The month names that are understood, in lookup order.
    pub fn get_map() -> (r: Vec<(&'static str, MonthParse)>)
        ensures
            r@.len() == month_table().len(),
            forall|k: int|
                0 <= k < r@.len() ==> (#[trigger] r@[k]).0@ == month_table()[k].0 && r@[k].1
                    == month_table()[k].1,
    {
        let mut m: Vec<(&'static str, MonthParse)> = Vec::new();
        m.push(("January", MonthParse::new(Month::January, false)));
        m.push(("Jan", MonthParse::new(Month::January, true)));
        m.push(("February", MonthParse::new(Month::February, false)));
        m.push(("Feb", MonthParse::new(Month::February, true)));
        m.push(("March", MonthParse::new(Month::March, false)));
        m.push(("April", MonthParse::new(Month::April, false)));
        m.push(("May", MonthParse::new(Month::May, false)));
        m.push(("June", MonthParse::new(Month::June, false)));
        m.push(("July", MonthParse::new(Month::July, false)));
        m.push(("August", MonthParse::new(Month::August, false)));
        m.push(("Aug", MonthParse::new(Month::August, true)));
        m.push(("September", MonthParse::new(Month::September, false)));
        m.push(("Sept", MonthParse::new(Month::September, true)));
        m.push(("October", MonthParse::new(Month::October, false)));
        m.push(("Oct", MonthParse::new(Month::October, true)));
        m.push(("November", MonthParse::new(Month::November, false)));
        m.push(("Nov", MonthParse::new(Month::November, true)));
        m.push(("December", MonthParse::new(Month::December, false)));
        m.push(("Dec", MonthParse::new(Month::December, true)));
        m
    }

    /// The month that `value` names, in full or abbreviated.
    pub fn parse(value: &str) -> (r: Result<MonthParse, ()>)
        ensures
            r == match month_named(value@) {
                Some(p) => Ok::<MonthParse, ()>(p),
                None => Err(()),
            },
    {
        let map = Month::get_map();
        let mut k: usize = 0;
        while k < map.len()
            invariant
                map@.len() == month_table().len(),
                forall|j: int|
                    0 <= j < map@.len() ==> (#[trigger] map@[j]).0@ == month_table()[j].0
                        && map@[j].1 == month_table()[j].1,
                k <= map@.len(),
                lookup_month(month_table(), value@, k as nat) == month_named(value@),
            decreases map@.len() - k,
        {
            let (name, parse) = map[k];
            if same_text(name, value) {
                return Ok(parse);
            }
            k = k + 1;
        }
        Err(())
    }
}

/// Which part of the input an error concerns, in bytes.
#[derive(Debug, PartialEq, Eq)]
pub enum ErrorPosition {
    Global,
    Char(ErrorLocation),
    Range(ErrorRange),
}

/// A byte offset into the input.
#[derive(Debug, Clone, Copy, PartialEq, Eq, Structural)]
pub struct ErrorLocation {
    pub byte: usize,
}

/// The number of bytes that the UTF-8 encoding of the first `k` characters of `cs` takes.
pub open spec fn bytes_before(cs: Seq<char>, k: int) -> nat {
    encode_utf8(cs.take(k)).len()
}

/// The number of bytes of the UTF-8 encoding of `c`.
pub open spec fn utf8_width(c: char) -> nat {
    if (c as u32) <= 0x7f {
        1
    } else if (c as u32) <= 0x7ff {
        2
    } else if (c as u32) <= 0xffff {
        3
    } else {
        4
    }
}

/// Each character adds its width to the byte count.
pub proof fn lemma_bytes_before_step(cs: Seq<char>, k: int)
    requires
        0 <= k < cs.len(),
    ensures
        bytes_before(cs, k + 1) == bytes_before(cs, k) + utf8_width(cs[k]),
        bytes_before(cs, k + 1) <= encode_utf8(cs).len(),
{
    assert(cs.take(k + 1) =~= cs.take(k) + seq![cs[k]]);
    lemma_encode_concat(cs.take(k), seq![cs[k]]);
    assert(seq![cs[k]].drop_first() =~= Seq::<char>::empty());
    char_is_scalar(cs[k]);
    assert(encode_utf8(seq![cs[k]]) == encode_scalar(cs[k] as u32) + encode_utf8(Seq::<char>::empty()));
    assert(cs =~= cs.take(k + 1) + cs.skip(k + 1));
    lemma_encode_concat(cs.take(k + 1), cs.skip(k + 1));
}

fn char_width(c: char) -> (w: usize)
    ensures
        w == utf8_width(c),
{
    let v = c as u32;
    if v <= 0x7f {
        1
    } else if v <= 0x7ff {
        2
    } else if v <= 0xffff {
        3
    } else {
        4
    }
}

impl ErrorLocation {
    pub fn new(byte: usize) -> (r: ErrorLocation)
        ensures
            r.byte == byte,
    {
        ErrorLocation { byte }
    }

    /// The index of the character of `input` that starts at this byte.
    pub fn char_index(&self, input: &str) -> (r: usize)
        requires
            exists|k: int| 0 <= k < input@.len() && bytes_before(input@, k) == self.byte,
        ensures
            r < input@.len(),
            bytes_before(input@, r as int) == self.byte,
    {
        char_at_byte(input, self.byte)
    }
}

proof fn lemma_bytes_before_grows(cs: Seq<char>, i: int, j: int)
    requires
        0 <= i < j <= cs.len(),
    ensures
        bytes_before(cs, i) < bytes_before(cs, j),
    decreases j - i,
{
    lemma_bytes_before_step(cs, j - 1);
    if i < j - 1 {
        lemma_bytes_before_grows(cs, i, j - 1);
    }
}

fn char_at_byte(input: &str, byte: usize) -> (r: usize)
    requires
        exists|k: int| 0 <= k < input@.len() && bytes_before(input@, k) == byte,
    ensures
        r < input@.len(),
        bytes_before(input@, r as int) == byte,
{
    let total = input.as_bytes().len();
    let n = input.unicode_len();
    let mut i: usize = 0;
    let mut at: usize = 0;
    assert(input@.take(0) =~= Seq::<char>::empty());
    while i < n
        invariant
            n == input@.len(),
            total == encode_utf8(input@).len(),
            i <= n,
            at == bytes_before(input@, i as int),
            forall|k: int| 0 <= k < i ==> bytes_before(input@, k) != byte,
        decreases n - i,
    {
        if at == byte {
            return i;
        }
        proof {
            lemma_bytes_before_step(input@, i as int);
        }
        at = at + char_width(input.get_char(i));
        i = i + 1;
    }
    proof {
        let k = choose|k: int| 0 <= k < input@.len() && bytes_before(input@, k) == byte;
        assert(bytes_before(input@, k) != byte);
    }
    0
}

/// A byte range of the input.
#[derive(Debug, PartialEq, Eq)]
pub struct ErrorRange {
    pub bytes: Range<usize>,
}

impl ErrorRange {
    pub fn new(bytes: Range<usize>) -> (r: ErrorRange)
        ensures
            r.bytes == bytes,
    {
        ErrorRange { bytes }
    }

    /// The range of character indices of `input` that starts and ends at these bytes.
    pub fn char_range(&self, input: &str) -> (r: Range<usize>)
        requires
            exists|k: int| 0 <= k < input@.len() && bytes_before(input@, k) == self.bytes.start,
            exists|k: int| 0 <= k < input@.len() && bytes_before(input@, k) == self.bytes.end,
        ensures
            r.start < input@.len(),
            r.end < input@.len(),
            bytes_before(input@, r.start as int) == self.bytes.start,
            bytes_before(input@, r.end as int) == self.bytes.end,
    {
        let start = char_at_byte(input, self.bytes.start);
        let end = char_at_byte(input, self.bytes.end);
        start..end
    }
}

/// Something that a date was expected to hold at some point.
#[derive(Debug, Clone, Copy, PartialEq, Eq, Structural)]
pub enum Expected {
    Whitespace,
    Period,
    Month,
    Year,
}

/// What was wrong with a date.
#[derive(Debug, Clone, PartialEq, Eq)]
pub enum ErrorReason {
    /// A parsed component was improperly formatted.
    BadElement(&'static str),
    /// A parsed component was unexpected.
    Unrecognized(Vec<Expected>),
    /// An extra component was encountered.
    ExtraComponent,
    /// Not enough components were provided.
    Insufficient(Vec<Expected>),
}

/// An error reason with its expectations as a sequence.
pub enum ReasonShape {
    BadElement(&'static str),
    Unrecognized(Seq<Expected>),
    ExtraComponent,
    Insufficient(Seq<Expected>),
}

/// The shape of an error reason.
pub open spec fn shape_of(r: ErrorReason) -> ReasonShape {
    match r {
        ErrorReason::BadElement(m) => ReasonShape::BadElement(m),
        ErrorReason::Unrecognized(v) => ReasonShape::Unrecognized(v@),
        ErrorReason::ExtraComponent => ReasonShape::ExtraComponent,
        ErrorReason::Insufficient(v) => ReasonShape::Insufficient(v@),
    }
}

/// A date that could not be read.
#[derive(Debug, PartialEq, Eq)]
pub struct ParseError {
    pub input: String,
    pub position: ErrorPosition,
    pub reason: ErrorReason,
}

impl ParseError {
    pub fn new(input: String, position: ErrorPosition, reason: ErrorReason) -> (r: ParseError)
        ensures
            r == (ParseError { input, position, reason }),
    {
        ParseError { input, position, reason }
    }
}

/// The class of a character as far as dates go.
#[derive(Debug, Clone, Copy, PartialEq, Eq, Structural)]
pub enum CharType {
    Invalid,
    Alphabetic,
    Numeric,
    Punctuation,
}

/// `c` is an ASCII letter.
pub open spec fn is_ascii_letter(c: char) -> bool {
    ('a' <= c && c <= 'z') || ('A' <= c && c <= 'Z')
}

/// `c` is an ASCII digit.
pub open spec fn is_ascii_digit(c: char) -> bool {
    '0' <= c && c <= '9'
}

/// The class of `c`.
pub open spec fn char_type(c: char) -> CharType {
    if is_ascii_letter(c) {
        CharType::Alphabetic
    } else if is_ascii_digit(c) {
        CharType::Numeric
    } else if c == '.' {
        CharType::Punctuation
    } else {
        CharType::Invalid
    }
}

/// The class of `c`.
pub fn get_char_type(c: char) -> (t: CharType)
    ensures
        t == char_type(c),
{
    if ('a' <= c && c <= 'z') || ('A' <= c && c <= 'Z') {
        CharType::Alphabetic
    } else if '0' <= c && c <= '9' {
        CharType::Numeric
    } else if c == '.' {
        CharType::Punctuation
    } else {
        CharType::Invalid
    }
}

/// `c` is white space in the sense of Unicode's `White_Space` property.
pub open spec fn is_space(c: char) -> bool {
    ||| '\u{9}' <= c && c <= '\u{d}'
    ||| c == ' '
    ||| c == '\u{85}'
    ||| c == '\u{a0}'
    ||| c == '\u{1680}'
    ||| '\u{2000}' <= c && c <= '\u{200a}'
    ||| c == '\u{2028}'
    ||| c == '\u{2029}'
    ||| c == '\u{202f}'
    ||| c == '\u{205f}'
    ||| c == '\u{3000}'
}

fn is_whitespace(c: char) -> (b: bool)
    ensures
        b == is_space(c),
{
    ('\u{9}' <= c && c <= '\u{d}') || c == ' ' || c == '\u{85}' || c == '\u{a0}' || c == '\u{1680}'
        || ('\u{2000}' <= c && c <= '\u{200a}') || c == '\u{2028}' || c == '\u{2029}' || c
        == '\u{202f}' || c == '\u{205f}' || c == '\u{3000}'
}

/// Where a character of `cs` at or after `i` that is not white space first
/// occurs (the length of `cs` if none does).
pub open spec fn token_start(cs: Seq<char>, i: nat) -> nat
    decreases cs.len() - i,
{
    if i < cs.len() && is_space(cs[i as int]) {
        token_start(cs, i + 1)
    } else {
        i
    }
}

/// Where the run of characters of class `t` that reaches `i` ends.
pub open spec fn run_end(cs: Seq<char>, i: nat, t: CharType) -> nat
    decreases cs.len() - i,
{
    if i < cs.len() && char_type(cs[i as int]) == t {
        run_end(cs, i + 1, t)
    } else {
        i
    }
}

/// Where the token that begins at character `s` ends: a period or an invalid
/// character stands alone, letters and digits run on.
pub open spec fn token_end(cs: Seq<char>, s: nat) -> nat {
    let t = char_type(cs[s as int]);
    if t == CharType::Punctuation || t == CharType::Invalid {
        s + 1
    } else {
        run_end(cs, s + 1, t)
    }
}

/// The next token of `cs`, whose first byte is byte `base` of the input: its
/// class, its byte range in the input, its text, and the text after it; `None`
/// when only white space is left.
pub open spec fn step(cs: Seq<char>, base: nat) -> Option<(CharType, nat, nat, Seq<char>, Seq<char>)> {
    let s = token_start(cs, 0);
    if s >= cs.len() {
        None
    } else {
        let e = token_end(cs, s);
        Some(
            (
                char_type(cs[s as int]),
                base + bytes_before(cs, s as int),
                base + bytes_before(cs, e as int),
                cs.subrange(s as int, e as int),
                cs.skip(e as int),
            ),
        )
    }
}

/// The value of the decimal digits `ds`.
pub open spec fn decimal_value(ds: Seq<char>) -> nat
    decreases ds.len(),
{
    if ds.len() == 0 {
        0
    } else {
        decimal_value(ds.drop_last()) * 10 + ((ds.last() as u32) - ('0' as u32)) as nat
    }
}

proof fn lemma_decimal_grows(ds: Seq<char>, i: int, j: int)
    requires
        0 <= i <= j <= ds.len(),
        forall|k: int| 0 <= k < ds.len() ==> is_ascii_digit(#[trigger] ds[k]),
    ensures
        decimal_value(ds.take(i)) <= decimal_value(ds.take(j)),
    decreases j - i,
{
    if i < j {
        lemma_decimal_grows(ds, i, j - 1);
        assert(ds.take(j).drop_last() =~= ds.take(j - 1));
    }
}

/// The value of the decimal digits `digits`, unless it exceeds `u64::MAX`.
fn parse_decimal(digits: &str) -> (r: Option<u64>)
    requires
        forall|k: int| 0 <= k < digits@.len() ==> is_ascii_digit(#[trigger] digits@[k]),
    ensures
        r == if decimal_value(digits@) <= u64::MAX {
            Some(decimal_value(digits@) as u64)
        } else {
            None::<u64>
        },
{
    let ghost ds = digits@;
    let n = digits.unicode_len();
    let mut acc: u64 = 0;
    let mut i: usize = 0;
    assert(ds.take(0) =~= Seq::<char>::empty());
    while i < n
        invariant
            n == ds.len(),
            ds == digits@,
            forall|k: int| 0 <= k < ds.len() ==> is_ascii_digit(#[trigger] ds[k]),
            i <= n,
            acc == decimal_value(ds.take(i as int)),
        decreases n - i,
    {
        let c = digits.get_char(i);
        let d = (c as u32 - '0' as u32) as u64;
        assert(ds.take(i + 1).drop_last() =~= ds.take(i as int));
        assert(ds.take(i + 1).last() == c);
        match acc.checked_mul(10) {
            Some(m) => match m.checked_add(d) {
                Some(v) => {
                    acc = v;
                },
                None => {
                    proof {
                        lemma_decimal_grows(ds, i + 1, n as int);
                        assert(ds.take(n as int) =~= ds);
                    }
                    return None;
                },
            },
            None => {
                proof {
                    lemma_decimal_grows(ds, i + 1, n as int);
                    assert(ds.take(n as int) =~= ds);
                }
                return None;
            },
        }
        i = i + 1;
    }
    assert(ds.take(n as int) =~= ds);
    Some(acc)
}

/// What a token holds.
#[derive(Debug, Clone, Copy, PartialEq, Eq)]
pub enum TokenData<'a> {
    String(&'a str),
    Number(u64),
    Punctuation(char),
}

/// A token of a date, with its byte range in the text it was read from.
#[derive(Debug, PartialEq, Eq)]
pub struct Token<'a> {
    /// Byte range over the parsed string that this token resides in.
    pub pos: Range<usize>,
    pub data: TokenData<'a>,
}

/// Why no token could be read.
#[derive(Debug, Clone, Copy, PartialEq, Eq, Structural)]
pub enum TokenErrorReason {
    Empty,
    Unrecognized(char),
    InternalParseError,
}

/// A failure to read a token.
#[derive(Debug, PartialEq, Eq)]
pub struct TokenError {
    pub position: ErrorPosition,
    pub reason: TokenErrorReason,
}

/// `tok` is the token of class `t` at bytes `a..b` with text `text`.
pub open spec fn token_fits(tok: Token, t: CharType, a: nat, b: nat, text: Seq<char>) -> bool {
    &&& tok.pos.start == a
    &&& tok.pos.end == b
    &&& match tok.data {
        TokenData::String(s) => t == CharType::Alphabetic && s@ == text,
        TokenData::Number(v) => t == CharType::Numeric && v == decimal_value(text),
        TokenData::Punctuation(c) => t == CharType::Punctuation && c == '.',
    }
}

/// The byte count of the start of `cs` and that of the rest make up the whole.
pub proof fn lemma_bytes_split(cs: Seq<char>, k: int)
    requires
        0 <= k <= cs.len(),
    ensures
        bytes_before(cs, k) + encode_utf8(cs.skip(k)).len() == encode_utf8(cs).len(),
{
    assert(cs =~= cs.take(k) + cs.skip(k));
    lemma_encode_concat(cs.take(k), cs.skip(k));
}

proof fn lemma_ascii_width(c: char)
    requires
        char_type(c) != CharType::Invalid,
    ensures
        utf8_width(c) == 1,
{
}

fn skip_spaces(text: &str, n: usize, total: usize) -> (r: (usize, usize))
    requires
        n == text@.len(),
        total == encode_utf8(text@).len(),
    ensures
        r.0 == token_start(text@, 0),
        r.0 <= n,
        r.1 == bytes_before(text@, r.0 as int),
{
    let ghost cs = text@;
    let mut i: usize = 0;
    let mut byte: usize = 0;
    let mut done: bool = false;
    assert(cs.take(0) =~= Seq::<char>::empty());
    while !done && i < n
        invariant
            cs == text@,
            n == cs.len(),
            total == encode_utf8(cs).len(),
            i <= n,
            byte == bytes_before(cs, i as int),
            token_start(cs, i as nat) == token_start(cs, 0),
            done ==> i < n && !is_space(cs[i as int]),
        decreases n - i + (if done { 0int } else { 1int }),
    {
        let c = text.get_char(i);
        if is_whitespace(c) {
            proof {
                lemma_bytes_before_step(cs, i as int);
            }
            byte = byte + char_width(c);
            i = i + 1;
        } else {
            done = true;
        }
    }
    (i, byte)
}

fn run_to_end(text: &str, n: usize, total: usize, i: usize, byte: usize, t: CharType) -> (r: (usize, usize))
    requires
        n == text@.len(),
        total == encode_utf8(text@).len(),
        i < n,
        char_type(text@[i as int]) == t,
        t != CharType::Invalid,
        byte == bytes_before(text@, i as int),
    ensures
        r.0 == run_end(text@, (i + 1) as nat, t),
        i < r.0 <= n,
        r.1 == bytes_before(text@, r.0 as int),
        forall|k: int| i <= k < r.0 ==> char_type(#[trigger] text@[k]) == t,
{
    let ghost cs = text@;
    proof {
        lemma_bytes_before_step(cs, i as int);
        lemma_ascii_width(cs[i as int]);
    }
    let mut j: usize = i + 1;
    let mut end: usize = byte + 1;
    let mut done: bool = false;
    while !done && j < n
        invariant
            cs == text@,
            n == cs.len(),
            total == encode_utf8(cs).len(),
            t != CharType::Invalid,
            i < j <= n,
            end == bytes_before(cs, j as int),
            run_end(cs, j as nat, t) == run_end(cs, (i + 1) as nat, t),
            forall|k: int| i <= k < j ==> char_type(#[trigger] cs[k]) == t,
            done ==> j < n && char_type(cs[j as int]) != t,
        decreases n - j + (if done { 0int } else { 1int }),
    {
        let c = text.get_char(j);
        if get_char_type(c) == t {
            proof {
                lemma_bytes_before_step(cs, j as int);
                lemma_ascii_width(c);
            }
            end = end + 1;
            j = j + 1;
        } else {
            done = true;
        }
    }
    (j, end)
}

impl<'a> Token<'a> {
    /// Reads the next token of `*reference`, skipping white space, and moves
    /// `*reference` past it; on failure `*reference` is left as it was.
    pub fn parse(reference: &mut &'a str) -> (r: Result<Token<'a>, TokenError>)
        ensures
            match step(old(reference)@, 0) {
                None => r == Err::<Token<'a>, TokenError>(
                    TokenError { position: ErrorPosition::Global, reason: TokenErrorReason::Empty },
                ) && *final(reference) == *old(reference),
                Some((t, a, b, text, rest)) => if t == CharType::Invalid {
                    &&& r == Err::<Token<'a>, TokenError>(
                        TokenError {
                            position: ErrorPosition::Char(ErrorLocation { byte: a as usize }),
                            reason: TokenErrorReason::Unrecognized(text[0]),
                        },
                    )
                    &&& *final(reference) == *old(reference)
                } else if t == CharType::Numeric && decimal_value(text) > u64::MAX {
                    &&& r == Err::<Token<'a>, TokenError>(
                        TokenError {
                            position: ErrorPosition::Range(
                                ErrorRange { bytes: Range { start: a as usize, end: b as usize } },
                            ),
                            reason: TokenErrorReason::InternalParseError,
                        },
                    )
                    &&& *final(reference) == *old(reference)
                } else {
                    &&& r is Ok
                    &&& token_fits(r->Ok_0, t, a, b, text)
                    &&& final(reference)@ == rest
                },
            },
    {
        let text: &'a str = *reference;
        let ghost cs = text@;
        let total = text.as_bytes().len();
        let n = text.unicode_len();
        let (i, byte) = skip_spaces(text, n, total);
        if i >= n {
            return Err(TokenError { position: ErrorPosition::Global, reason: TokenErrorReason::Empty });
        }
        let c = text.get_char(i);
        let t = get_char_type(c);
        match t {
            CharType::Invalid => {
                assert(cs.subrange(i as int, i + 1)[0] == c);
                return Err(
                    TokenError {
                        position: ErrorPosition::Char(ErrorLocation::new(byte)),
                        reason: TokenErrorReason::Unrecognized(c),
                    },
                );
            },
            CharType::Punctuation => {
                proof {
                    lemma_bytes_before_step(cs, i as int);
                    lemma_ascii_width(c);
                }
                *reference = text.substring_char(i + 1, n);
                assert(cs.subrange(i + 1, n as int) =~= cs.skip(i + 1));
                return Ok(Token { pos: byte..byte + 1, data: TokenData::Punctuation('.') });
            },
            _ => {},
        }
        let (j, end) = run_to_end(text, n, total, i, byte, t);
        let word = text.substring_char(i, j);
        let data = match t {
            CharType::Numeric => {
                assert forall|k: int| 0 <= k < word@.len() implies is_ascii_digit(#[trigger] word@[k]) by {
                    assert(word@[k] == cs[i + k]);
                }
                match parse_decimal(word) {
                    Some(v) => TokenData::Number(v),
                    None => {
                        return Err(
                            TokenError {
                                position: ErrorPosition::Range(ErrorRange::new(byte..end)),
                                reason: TokenErrorReason::InternalParseError,
                            },
                        );
                    },
                }
            },
            _ => TokenData::String(word),
        };
        *reference = text.substring_char(j, n);
        assert(cs.subrange(j as int, n as int) =~= cs.skip(j as int));
        Ok(Token { pos: byte..end, data })
    }
}

/// Reads the tokens of a text one by one, with byte ranges relative to the
/// whole text; stops after the first failure.
#[derive(Debug, Clone, Copy)]
pub struct Tokenize<'a> {
    /// Bytes of the text read so far.
    pub len: usize,
    /// The text still to read.
    pub data: &'a str,
    /// Whether reading has stopped.
    pub end: bool,
}

impl<'a> Tokenize<'a> {
    /// The byte offsets of the whole text fit in `usize`.
    pub open spec fn wf(&self) -> bool {
        self.len + encode_utf8(self.data@).len() <= usize::MAX
    }

    pub fn new(data: &'a str) -> (r: Tokenize<'a>)
        ensures
            r.len == 0,
            r.data == data,
            !r.end,
            r.wf(),
    {
        let _ = data.as_bytes().len();
        Tokenize { len: 0, data, end: false }
    }

    /// The next token, or the failure that stops reading; `None` once the
    /// text is exhausted or reading has stopped.
    pub fn next(&mut self) -> (r: Option<Result<Token<'a>, TokenError>>)
        requires
            old(self).wf(),
        ensures
            final(self).wf(),
            old(self).end ==> r is None && *final(self) == *old(self),
            !old(self).end ==> match step(old(self).data@, old(self).len as nat) {
                None => r is None && final(self).end && final(self).data == old(self).data,
                Some((t, a, b, text, rest)) => if t == CharType::Invalid {
                    &&& final(self).data == old(self).data
                    &&& r == Some(
                        Err::<Token<'a>, TokenError>(
                            TokenError {
                                position: ErrorPosition::Char(ErrorLocation { byte: a as usize }),
                                reason: TokenErrorReason::Unrecognized(text[0]),
                            },
                        ),
                    )
                    &&& final(self).end
                } else if t == CharType::Numeric && decimal_value(text) > u64::MAX {
                    &&& final(self).data == old(self).data
                    &&& r == Some(
                        Err::<Token<'a>, TokenError>(
                            TokenError {
                                position: ErrorPosition::Range(
                                    ErrorRange { bytes: Range { start: a as usize, end: b as usize } },
                                ),
                                reason: TokenErrorReason::InternalParseError,
                            },
                        ),
                    )
                    &&& final(self).end
                } else {
                    &&& r is Some
                    &&& r->Some_0 is Ok
                    &&& token_fits(r->Some_0->Ok_0, t, a, b, text)
                    &&& final(self).data@ == rest
                    &&& final(self).len == b
                    &&& !final(self).end
                },
            },
    {
        if self.end {
            return None;
        }
        let ghost cs = self.data@;
        proof {
            let s = token_start(cs, 0);
            if s < cs.len() {
                lemma_token_start_bound(cs, 0);
                lemma_run_end_bound(cs, s + 1, char_type(cs[s as int]));
                let e = token_end(cs, s);
                lemma_bytes_split(cs, e as int);
                lemma_bytes_before_grows(cs, s as int, e as int);
            }
        }
        let mut data = self.data;
        let result = Token::parse(&mut data);
        match result {
            Ok(token) => {
                let Token { pos, data: value } = token;
                let start = pos.start + self.len;
                let end = pos.end + self.len;
                self.len = end;
                self.data = data;
                Some(Ok(Token { pos: start..end, data: value }))
            },
            Err(err) => {
                self.end = true;
                match err.reason {
                    TokenErrorReason::Empty => None,
                    reason => {
                        let position = match err.position {
                            ErrorPosition::Global => ErrorPosition::Global,
                            ErrorPosition::Char(i) => ErrorPosition::Char(ErrorLocation::new(i.byte + self.len)),
                            ErrorPosition::Range(r) => ErrorPosition::Range(
                                ErrorRange::new((r.bytes.start + self.len)..(r.bytes.end + self.len)),
                            ),
                        };
                        Some(Err(TokenError { position, reason }))
                    },
                }
            },
        }
    }

    /// All tokens up to the end of the text or the first failure, in order.
    pub fn collect_tokens(self) -> (r: Vec<Result<Token<'a>, TokenError>>)
        requires
            self.wf(),
        ensures
            self.end ==> r@.len() == 0,
            !self.end ==> read_all(self.data@, self.len as nat, r@),
    {
        let mut tokens = self;
        let mut out: Vec<Result<Token<'a>, TokenError>> = Vec::new();
        while !tokens.end
            invariant
                tokens.wf(),
                self.end ==> tokens.end,
                self.end ==> out@.len() == 0,
                !self.end && tokens.end ==> read_all(self.data@, self.len as nat, out@),
                !self.end && !tokens.end ==> forall|tail: Seq<Result<Token<'a>, TokenError>>|
                    #[trigger] read_all(tokens.data@, tokens.len as nat, tail) ==> read_all(
                        self.data@,
                        self.len as nat,
                        out@ + tail,
                    ),
            decreases tokens.data@.len() + (if tokens.end { 0int } else { 1int }),
        {
            let ghost before = tokens.data@;
            let ghost len0 = tokens.len;
            let ghost s = token_start(before, 0);
            proof {
                lemma_token_start_bound(before, 0);
                if s < before.len() {
                    lemma_run_end_bound(before, s + 1, char_type(before[s as int]));
                }
            }
            let ghost out_before = out@;
            match tokens.next() {
                Some(t) => out.push(t),
                None => {},
            }
            proof {
                if !tokens.end {
                    let e = token_end(before, s);
                    assert(tokens.data@ == before.skip(e as int));
                    assert forall|tail: Seq<Result<Token<'a>, TokenError>>|
                        #[trigger] read_all(tokens.data@, tokens.len as nat, tail) implies read_all(
                        self.data@,
                        self.len as nat,
                        out@ + tail,
                    ) by {
                        let whole = seq![out@.last()] + tail;
                        let st = step(before, len0 as nat);
                        assert(st is Some);
                        assert(tokens.data@ == st->Some_0.4);
                        assert(tokens.len == st->Some_0.2);
                        assert(st->Some_0.4.len() < before.len());
                        assert(whole.drop_first() =~= tail);
                        assert(whole[0] == out@.last());
                        assert(read_all(before, len0 as nat, whole));
                        assert(out_before + whole =~= out@ + tail);
                    }
                } else {
                    if out@.len() > out_before.len() {
                        let whole = seq![out@.last()];
                        assert(read_all(before, len0 as nat, whole));
                        assert(out_before + whole =~= out@);
                    } else {
                        assert(read_all(before, len0 as nat, Seq::<Result<Token<'a>, TokenError>>::empty()));
                        assert(out_before + Seq::<Result<Token<'a>, TokenError>>::empty() =~= out@);
                    }
                }
            }
        }
        out
    }
}

/// `out` holds what reading `cs`, which begins at byte `base` of the text,
/// token by token gives: each token in turn, ending at the end of the text
/// or with the first failure.
pub open spec fn read_all<'a>(cs: Seq<char>, base: nat, out: Seq<Result<Token<'a>, TokenError>>) -> bool
    decreases cs.len(),
{
    match step(cs, base) {
        None => out.len() == 0,
        Some((t, a, b, text, rest)) => {
            &&& out.len() > 0
            &&& if t == CharType::Invalid {
                &&& out.len() == 1
                &&& out[0] == Err::<Token<'a>, TokenError>(
                    TokenError {
                        position: ErrorPosition::Char(ErrorLocation { byte: a as usize }),
                        reason: TokenErrorReason::Unrecognized(text[0]),
                    },
                )
            } else if t == CharType::Numeric && decimal_value(text) > u64::MAX {
                &&& out.len() == 1
                &&& out[0] == Err::<Token<'a>, TokenError>(
                    TokenError {
                        position: ErrorPosition::Range(
                            ErrorRange { bytes: Range { start: a as usize, end: b as usize } },
                        ),
                        reason: TokenErrorReason::InternalParseError,
                    },
                )
            } else {
                &&& out[0] is Ok
                &&& token_fits(out[0]->Ok_0, t, a, b, text)
                &&& rest.len() < cs.len()
                &&& read_all(rest, b, out.drop_first())
            }
        },
    }
}

proof fn lemma_token_start_bound(cs: Seq<char>, i: nat)
    requires
        i <= cs.len(),
    ensures
        i <= token_start(cs, i) <= cs.len(),
    decreases cs.len() - i,
{
    if i < cs.len() && is_space(cs[i as int]) {
        lemma_token_start_bound(cs, i + 1);
    }
}

proof fn lemma_run_end_bound(cs: Seq<char>, i: nat, t: CharType)
    requires
        i <= cs.len(),
    ensures
        i <= run_end(cs, i, t) <= cs.len(),
    decreases cs.len() - i,
{
    if i < cs.len() && char_type(cs[i as int]) == t {
        lemma_run_end_bound(cs, i + 1, t);
    }
}

/// The year of a numeric token, as the date records it.
pub open spec fn year_of(text: Seq<char>) -> u32 {
    (decimal_value(text) as u64) as u32
}

/// The outcome of reading the year token `(t, a, b, text, rest)` of a date
/// whose month is `mp`: it must be a number, and nothing may follow it.
pub open spec fn date_after_year(
    tok: (CharType, nat, nat, Seq<char>, Seq<char>),
    mp: MonthParse,
) -> Result<HumanDate, (ErrorPosition, ReasonShape)> {
    let (t, a, b, text, rest) = tok;
    if t != CharType::Numeric {
        Err(
            (
                ErrorPosition::Range(ErrorRange { bytes: Range { start: a as usize, end: b as usize } }),
                ReasonShape::Unrecognized(seq![Expected::Year]),
            ),
        )
    } else if step(rest, b) is Some {
        Err((ErrorPosition::Global, ReasonShape::ExtraComponent))
    } else {
        Ok(HumanDate { year: year_of(text), month: Some(mp.month) })
    }
}

/// The token at `tok` could not be read: the error it gives after a month.
pub open spec fn token_failed(tok: (CharType, nat, nat, Seq<char>, Seq<char>)) -> bool {
    tok.0 == CharType::Invalid || (tok.0 == CharType::Numeric && decimal_value(tok.3) > u64::MAX)
}

/// Where a token that could not be read lies.
pub open spec fn failure_position(tok: (CharType, nat, nat, Seq<char>, Seq<char>)) -> ErrorPosition {
    if tok.0 == CharType::Invalid {
        ErrorPosition::Char(ErrorLocation { byte: tok.1 as usize })
    } else {
        ErrorPosition::Range(ErrorRange { bytes: Range { start: tok.1 as usize, end: tok.2 as usize } })
    }
}

/// The outcome of reading what follows the month `mp` in `rest`, which
/// begins at byte `base`.
pub open spec fn date_after_month(rest: Seq<char>, base: nat, mp: MonthParse) -> Result<
    HumanDate,
    (ErrorPosition, ReasonShape),
> {
    match step(rest, base) {
        None => Err(
            (ErrorPosition::Global, ReasonShape::Insufficient(seq![Expected::Period, Expected::Year])),
        ),
        Some(tok) => if token_failed(tok) {
            Err((failure_position(tok), ReasonShape::BadElement(EXPECTED_FORMAT)))
        } else if tok.0 == CharType::Punctuation {
            if !mp.is_short {
                Err(
                    (
                        ErrorPosition::Char(ErrorLocation { byte: tok.1 as usize }),
                        ReasonShape::Unrecognized(seq![Expected::Year]),
                    ),
                )
            } else {
                match step(tok.4, tok.2) {
                    None => Err(
                        (ErrorPosition::Global, ReasonShape::Insufficient(seq![Expected::Year])),
                    ),
                    Some(year) => if token_failed(year) {
                        Err((failure_position(year), ReasonShape::BadElement(EXPECTED_FORMAT)))
                    } else {
                        date_after_year(year, mp)
                    },
                }
            }
        } else {
            date_after_year(tok, mp)
        },
    }
}

/// The outcome of reading the date `cs`: the date, or where and why it fails.
pub open spec fn date_outcome(cs: Seq<char>) -> Result<HumanDate, (ErrorPosition, ReasonShape)> {
    match step(cs, 0) {
        None => Err(
            (ErrorPosition::Global, ReasonShape::Insufficient(seq![Expected::Month, Expected::Year])),
        ),
        Some(tok) => if tok.0 == CharType::Alphabetic {
            match month_named(tok.3) {
                None => Err(
                    (
                        ErrorPosition::Range(
                            ErrorRange { bytes: Range { start: tok.1 as usize, end: tok.2 as usize } },
                        ),
                        ReasonShape::BadElement(MONTH_EXPECTED),
                    ),
                ),
                Some(mp) => date_after_month(tok.4, tok.2, mp),
            }
        } else if tok.0 == CharType::Numeric && decimal_value(tok.3) <= u64::MAX {
            Ok(HumanDate { year: year_of(tok.3), month: None })
        } else {
            Err(
                (
                    ErrorPosition::Global,
                    ReasonShape::Unrecognized(seq![Expected::Month, Expected::Year]),
                ),
            )
        },
    }
}

fn expecting(first: Expected) -> (r: Vec<Expected>)
    ensures
        r@ == seq![first],
{
    let mut v: Vec<Expected> = Vec::new();
    v.push(first);
    v
}

fn expecting_two(first: Expected, second: Expected) -> (r: Vec<Expected>)
    ensures
        r@ == seq![first, second],
{
    let mut v: Vec<Expected> = Vec::new();
    v.push(first);
    v.push(second);
    v
}

/// `e` is the date error `(position, why)` for the text `input`.
pub open spec fn error_is(e: ParseError, input: Seq<char>, position: ErrorPosition, why: ReasonShape) -> bool {
    &&& e.input@ == input
    &&& e.position == position
    &&& shape_of(e.reason) == why
}

impl HumanDate {
    /// Reads a date written as a month and a year (`February 2024`,
    /// `Feb 2024`, `Feb. 2024`) or as a year alone (`2024`).
    pub fn parse(input: &str) -> (r: Result<HumanDate, ParseError>)
        ensures
            match date_outcome(input@) {
                Ok(d) => r == Ok::<HumanDate, ParseError>(d),
                Err((position, why)) => r is Err && error_is(r->Err_0, input@, position, why),
            },
    {
        let mut tokens = Tokenize::new(input);
        let first = tokens.next();
        let mp = match first {
            None => {
                return Err(
                    ParseError::new(
                        input.to_owned(),
                        ErrorPosition::Global,
                        ErrorReason::Insufficient(expecting_two(Expected::Month, Expected::Year)),
                    ),
                );
            },
            Some(Ok(token)) => match token.data {
                TokenData::String(s) => match Month::parse(s) {
                    Ok(parse) => parse,
                    Err(_) => {
                        return Err(
                            ParseError::new(
                                input.to_owned(),
                                ErrorPosition::Range(ErrorRange::new(token.pos)),
                                ErrorReason::BadElement(MONTH_EXPECTED),
                            ),
                        );
                    },
                },
                TokenData::Number(year) => {
                    return Ok(HumanDate { year: year as u32, month: None });
                },
                TokenData::Punctuation(_) => {
                    return Err(
                        ParseError::new(
                            input.to_owned(),
                            ErrorPosition::Global,
                            ErrorReason::Unrecognized(expecting_two(Expected::Month, Expected::Year)),
                        ),
                    );
                },
            },
            Some(Err(_)) => {
                return Err(
                    ParseError::new(
                        input.to_owned(),
                        ErrorPosition::Global,
                        ErrorReason::Unrecognized(expecting_two(Expected::Month, Expected::Year)),
                    ),
                );
            },
        };
        let token = match tokens.next() {
            None => {
                return Err(
                    ParseError::new(
                        input.to_owned(),
                        ErrorPosition::Global,
                        ErrorReason::Insufficient(expecting_two(Expected::Period, Expected::Year)),
                    ),
                );
            },
            Some(Err(e)) => {
                return Err(
                    ParseError::new(input.to_owned(), e.position, ErrorReason::BadElement(EXPECTED_FORMAT)),
                );
            },
            Some(Ok(token)) => token,
        };
        let token = match token.data {
            TokenData::Punctuation(_) => {
                if !mp.is_short {
                    return Err(
                        ParseError::new(
                            input.to_owned(),
                            ErrorPosition::Char(ErrorLocation::new(token.pos.start)),
                            ErrorReason::Unrecognized(expecting(Expected::Year)),
                        ),
                    );
                }
                match tokens.next() {
                    None => {
                        return Err(
                            ParseError::new(
                                input.to_owned(),
                                ErrorPosition::Global,
                                ErrorReason::Insufficient(expecting(Expected::Year)),
                            ),
                        );
                    },
                    Some(Err(e)) => {
                        return Err(
                            ParseError::new(
                                input.to_owned(),
                                e.position,
                                ErrorReason::BadElement(EXPECTED_FORMAT),
                            ),
                        );
                    },
                    Some(Ok(year)) => year,
                }
            },
            _ => token,
        };
        let year: u32 = match token.data {
            TokenData::Number(year) => year as u32,
            _ => {
                return Err(
                    ParseError::new(
                        input.to_owned(),
                        ErrorPosition::Range(ErrorRange::new(token.pos)),
                        ErrorReason::Unrecognized(expecting(Expected::Year)),
                    ),
                );
            },
        };
        if tokens.next().is_some() {
            return Err(
                ParseError::new(input.to_owned(), ErrorPosition::Global, ErrorReason::ExtraComponent),
            );
        }
        Ok(HumanDate { year, month: Some(mp.month) })
    }
}

} // verus!
