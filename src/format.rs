//! The layout of the notes that an import writes.

use vstd::prelude::*;
use vstd::string::*;
use vstd::utf8::*;

use crate::global::{PERSISTENT_BEGIN, PERSISTENT_END};
use crate::persistent::{framed, lemma_single_region_round_trip, single_region};
use crate::source::{Annotation, SourceImport};
use crate::target::{empty_slot, empty_slot_text, kept_text};
use crate::text::{ascii_bytes, lemma_encode_concat, replace_all, replaced, starts_with_bytes};

verus! {

/// What a source note keeps across imports.
#[derive(Debug, Clone)]
pub struct SourcePersist {
    pub content_section: String,
}

impl Default for SourcePersist {
    fn default() -> (r: Self)
        ensures
            r.content_section@ == empty_slot(),
    {
        SourcePersist { content_section: empty_slot_text() }
    }
}

/// What an annotation note keeps across imports.
#[derive(Debug, Clone)]
pub struct AnnnotationPersist {
    pub content_section: String,
}

impl Default for AnnnotationPersist {
    fn default() -> (r: Self)
        ensures
            r.content_section@ == empty_slot(),
    {
        AnnnotationPersist { content_section: empty_slot_text() }
    }
}

/// Everything of a note up to its persistent slot, then the slot's markers
/// around `persist`, then the rest.
pub open spec fn with_slot(head: Seq<char>, persist: Seq<char>, tail: Seq<char>) -> Seq<char> {
    head + PERSISTENT_BEGIN@ + persist + PERSISTENT_END@ + tail
}

/// The part of a source note before its persistent slot.
pub open spec fn source_head(properties: Seq<char>, key: Seq<char>) -> Seq<char> {
    "---\n"@ + properties + "---\n\n[Open in Zotero](zotero://select/library/items/"@ + key
        + ")\n\n**Persistent Notes**\n\n---\n\n"@
}

/// The part of a source note after its persistent slot.
pub open spec fn source_tail(title: Seq<char>, content: Seq<char>) -> Seq<char> {
    "\n\n# "@ + title + "\n\n---\n\n"@ + content
}

/// The full text of a source note.
pub open spec fn source_note_text(
    properties: Seq<char>,
    key: Seq<char>,
    persist: Seq<char>,
    title: Seq<char>,
    content: Seq<char>,
) -> Seq<char> {
    with_slot(source_head(properties, key), persist, source_tail(title, content))
}

/// The text of a source note.
#[derive(Debug, Clone, Copy)]
pub struct SourceNote<'a> {
    /// Front matter, already in YAML form (ends with a newline).
    pub properties: &'a str,
    /// The item's key in the reference library.
    pub key: &'a str,
    /// Text of the persistent slot.
    pub persist: &'a str,
    pub title: &'a str,
    pub content: Option<&'a str>,
}

impl<'a> SourceNote<'a> {
    /// The note's text.
    pub fn render(&self) -> (r: String)
        ensures
            r@ == source_note_text(
                self.properties@,
                self.key@,
                self.persist@,
                self.title@,
                match self.content {
                    Some(c) => c@,
                    None => Seq::<char>::empty(),
                },
            ),
    {
        let content: &str = match self.content {
            Some(c) => c,
            None => "",
        };
        proof {
            reveal_strlit("");
        }
        let mut out = String::from_str("---\n");
        out.append(self.properties);
        out.append("---\n\n[Open in Zotero](zotero://select/library/items/");
        out.append(self.key);
        out.append(")\n\n**Persistent Notes**\n\n---\n\n");
        out.append(PERSISTENT_BEGIN);
        out.append(self.persist);
        out.append(PERSISTENT_END);
        out.append("\n\n# ");
        out.append(self.title);
        out.append("\n\n---\n\n");
        out.append(content);
        proof {
            assert(content@ =~= match self.content {
                Some(c) => c@,
                None => Seq::<char>::empty(),
            });
        }
        out
    }
}

/// The lowercase hexadecimal digit of `d` (below 16).
pub open spec fn hex_digit(d: u8) -> char {
    if d < 10 {
        (('0' as u8) + d) as char
    } else {
        (('a' as u8) + (d - 10)) as char
    }
}

/// Two lowercase hexadecimal digits for `b`.
pub open spec fn hex_pair(b: u8) -> Seq<char> {
    seq![hex_digit(b / 16), hex_digit(b % 16)]
}

pub(crate) fn hex_digit_str(d: u8) -> (r: &'static str)
    requires
        d < 16,
    ensures
        r@ == seq![hex_digit(d)],
{
    let r = match d {
        0 => "0",
        1 => "1",
        2 => "2",
        3 => "3",
        4 => "4",
        5 => "5",
        6 => "6",
        7 => "7",
        8 => "8",
        9 => "9",
        10 => "a",
        11 => "b",
        12 => "c",
        13 => "d",
        14 => "e",
        _ => "f",
    };
    proof {
        reveal_strlit("0");
        reveal_strlit("1");
        reveal_strlit("2");
        reveal_strlit("3");
        reveal_strlit("4");
        reveal_strlit("5");
        reveal_strlit("6");
        reveal_strlit("7");
        reveal_strlit("8");
        reveal_strlit("9");
        reveal_strlit("a");
        reveal_strlit("b");
        reveal_strlit("c");
        reveal_strlit("d");
        reveal_strlit("e");
        reveal_strlit("f");
    }
    assert(r@ =~= seq![hex_digit(d)]);
    r
}

/// A highlight colour.
#[derive(Debug, Clone, Copy, PartialEq, Eq, Structural)]
pub struct Colour {
    pub r: u8,
    pub g: u8,
    pub b: u8,
}

/// The `#rrggbb` form of a colour, in lowercase.
pub open spec fn colour_text(c: Colour) -> Seq<char> {
    seq!['#'] + hex_pair(c.r) + hex_pair(c.g) + hex_pair(c.b)
}

impl Colour {
    /// The colour as `#rrggbb`, in lowercase hexadecimal.
    pub fn to_hex_string(&self) -> (s: String)
        ensures
            s@ == colour_text(*self),
    {
        let mut out = String::from_str("#");
        proof {
            reveal_strlit("#");
        }
        out.append(hex_digit_str(self.r / 16));
        out.append(hex_digit_str(self.r % 16));
        out.append(hex_digit_str(self.g / 16));
        out.append(hex_digit_str(self.g % 16));
        out.append(hex_digit_str(self.b / 16));
        out.append(hex_digit_str(self.b % 16));
        assert(out@ =~= colour_text(*self));
        out
    }
}

/// Why a colour could not be read.
#[derive(Debug, Clone, Copy, PartialEq, Eq, Structural)]
pub enum ColourParseError {
    /// The text is not seven characters long; it has this many.
    InvalidLength(usize),
    /// The text does not start with `#`, but with this character.
    MissingHash(char),
    /// What follows `#` is not a hexadecimal number.
    InvalidDigits,
}

/// The value of the hexadecimal digit `c`, in either case.
pub open spec fn hex_digit_value(c: char) -> Option<nat> {
    if '0' <= c && c <= '9' {
        Some(((c as u32) - ('0' as u32)) as nat)
    } else if 'a' <= c && c <= 'f' {
        Some(((c as u32) - ('a' as u32) + 10) as nat)
    } else if 'A' <= c && c <= 'F' {
        Some(((c as u32) - ('A' as u32) + 10) as nat)
    } else {
        None
    }
}

/// The value of the hexadecimal digits `ds`, if they all are digits.
pub open spec fn hex_number(ds: Seq<char>) -> Option<nat>
    decreases ds.len(),
{
    if ds.len() == 0 {
        Some(0)
    } else {
        match (hex_number(ds.drop_last()), hex_digit_value(ds.last())) {
            (Some(a), Some(d)) => Some(a * 16 + d),
            _ => None,
        }
    }
}

/// The colour that `cs` writes as `#` and a hexadecimal number of six
/// characters (a leading `+` sign is allowed), the bytes of the number being
/// red, green and blue.
pub open spec fn colour_of(cs: Seq<char>) -> Result<Colour, ColourParseError> {
    if cs.len() != 7 {
        Err(ColourParseError::InvalidLength(cs.len() as usize))
    } else if cs[0] != '#' {
        Err(ColourParseError::MissingHash(cs[0]))
    } else {
        let digits = if cs[1] == '+' {
            cs.subrange(2, 7)
        } else {
            cs.subrange(1, 7)
        };
        match hex_number(digits) {
            Some(v) => Ok(
                Colour { r: ((v / 65536) % 256) as u8, g: ((v / 256) % 256) as u8, b: (v % 256) as u8 },
            ),
            None => Err(ColourParseError::InvalidDigits),
        }
    }
}

/// Powers of sixteen.
pub open spec fn pow16(n: nat) -> nat
    decreases n,
{
    if n == 0 {
        1
    } else {
        16 * pow16((n - 1) as nat)
    }
}

impl Colour {
    /// Reads a colour written as `#rrggbb`.
    pub fn parse_hex(v: &str) -> (r: Result<Colour, ColourParseError>)
        ensures
            r == colour_of(v@),
    {
        let n = v.unicode_len();
        if n != 7 {
            return Err(ColourParseError::InvalidLength(n));
        }
        let first = v.get_char(0);
        if first != '#' {
            return Err(ColourParseError::MissingHash(first));
        }
        let start: usize = if v.get_char(1) == '+' {
            2
        } else {
            1
        };
        let ghost digits = v@.subrange(start as int, 7);
        let mut acc: u32 = 0;
        let mut i: usize = start;
        proof {
            assert(digits.take(0) =~= Seq::<char>::empty());
            reveal_with_fuel(pow16, 7);
        }
        while i < 7
            invariant
                n == 7,
                v@.len() == 7,
                1 <= start <= i <= 7,
                start == (if v@[1] == '+' { 2usize } else { 1usize }),
                v@[0] == '#',
                digits == v@.subrange(start as int, 7),
                hex_number(digits.take(i - start)) == Some(acc as nat),
                acc < pow16((i - start) as nat),
                pow16(6) == 16777216,
            decreases 7 - i,
        {
            let c = v.get_char(i);
            let d: u32 = if '0' <= c && c <= '9' {
                c as u32 - '0' as u32
            } else if 'a' <= c && c <= 'f' {
                c as u32 - 'a' as u32 + 10
            } else if 'A' <= c && c <= 'F' {
                c as u32 - 'A' as u32 + 10
            } else {
                proof {
                    assert(digits[(i - start) as int] == c);
                    lemma_hex_invalid_extends(digits, (i - start) as int);
                }
                return Err(ColourParseError::InvalidDigits);
            };
            proof {
                let k = (i - start) as nat;
                assert(digits.take(k as int + 1).drop_last() =~= digits.take(k as int));
                assert(digits.take(k as int + 1).last() == c);
                assert(pow16(k + 1) == 16 * pow16(k));
                assert(pow16(k) <= pow16(6)) by {
                    lemma_pow16_grows(k, 6);
                }
                assert(acc * 16 + d < pow16(k + 1)) by (nonlinear_arith)
                    requires
                        acc < pow16(k),
                        d < 16,
                        pow16(k + 1) == 16 * pow16(k),
                ;
            }
            acc = acc * 16 + d;
            i = i + 1;
        }
        proof {
            assert(digits.take(7 - start) =~= digits);
            assert(((acc >> 16) & 0xff) == (acc / 65536) % 256) by (bit_vector);
            assert(((acc >> 8) & 0xff) == (acc / 256) % 256) by (bit_vector);
            assert((acc & 0xff) == acc % 256) by (bit_vector);
        }
        Ok(Colour { r: ((acc >> 16) & 0xff) as u8, g: ((acc >> 8) & 0xff) as u8, b: (acc & 0xff) as u8 })
    }
}

proof fn lemma_pow16_grows(a: nat, b: nat)
    requires
        a <= b,
    ensures
        pow16(a) <= pow16(b),
    decreases b - a,
{
    if a < b {
        lemma_pow16_grows(a, (b - 1) as nat);
    }
}

/// Once a character that is not a digit is met, the digits have no value.
proof fn lemma_hex_invalid_extends(ds: Seq<char>, k: int)
    requires
        0 <= k < ds.len(),
        hex_digit_value(ds[k]) is None,
    ensures
        hex_number(ds) is None,
    decreases ds.len(),
{
    if k == ds.len() - 1 {
    } else {
        lemma_hex_invalid_extends(ds.drop_last(), k);
    }
}

/// The part of an annotation note before its persistent slot.
pub open spec fn annotation_head(properties: Seq<char>, colour: Seq<char>, text: Seq<char>) -> Seq<char> {
    "---\n"@ + properties + "---\n\n\"<mark style=\"background-color: "@ + colour + ";\"><i>"@ + text
        + "</i></mark>\"\n\n**Persistent Notes**\n\n---\n\n"@
}

/// The part of an annotation note after its persistent slot.
pub open spec fn annotation_tail(content: Seq<char>) -> Seq<char> {
    "\n\n---\n\n"@ + content
}

/// The full text of an annotation note.
pub open spec fn annotation_note_text(
    properties: Seq<char>,
    text: Seq<char>,
    colour: Colour,
    persist: Seq<char>,
    content: Seq<char>,
) -> Seq<char> {
    with_slot(annotation_head(properties, colour_text(colour), text), persist, annotation_tail(content))
}

/// The text of an annotation note.
#[derive(Debug, Clone, Copy)]
pub struct AnnotationNote<'a> {
    /// Front matter, already in YAML form (ends with a newline).
    pub properties: &'a str,
    /// The highlighted text.
    pub text: &'a str,
    pub colour: Colour,
    /// Text of the persistent slot.
    pub persist: &'a str,
    /// The annotation's comment.
    pub content: &'a str,
}

impl<'a> AnnotationNote<'a> {
    /// The note's text.
    pub fn render(&self) -> (r: String)
        ensures
            r@ == annotation_note_text(
                self.properties@,
                self.text@,
                self.colour,
                self.persist@,
                self.content@,
            ),
    {
        let colour = self.colour.to_hex_string();
        let mut out = String::from_str("---\n");
        out.append(self.properties);
        out.append("---\n\n\"<mark style=\"background-color: ");
        out.append(colour.as_str());
        out.append(";\"><i>");
        out.append(self.text);
        out.append("</i></mark>\"\n\n**Persistent Notes**\n\n---\n\n");
        out.append(PERSISTENT_BEGIN);
        out.append(self.persist);
        out.append(PERSISTENT_END);
        out.append("\n\n---\n\n");
        out.append(self.content);
        out
    }
}

/// The bytes of a note are its head, slot and tail, each encoded in turn.
pub proof fn lemma_note_bytes(head: Seq<char>, persist: Seq<char>, tail: Seq<char>)
    ensures
        encode_utf8(with_slot(head, persist, tail)) == framed(
            encode_utf8(head),
            encode_utf8(persist),
            encode_utf8(tail),
        ),
{
    lemma_encode_concat(head, PERSISTENT_BEGIN@);
    lemma_encode_concat(head + PERSISTENT_BEGIN@, persist);
    lemma_encode_concat(head + PERSISTENT_BEGIN@ + persist, PERSISTENT_END@);
    lemma_encode_concat(head + PERSISTENT_BEGIN@ + persist + PERSISTENT_END@, tail);
}

/// Re-embedding: a note whose slot holds `persist`, and whose markers occur
/// only around that slot, gives `persist` back as the text to keep.
pub proof fn lemma_slot_round_trip(head: Seq<char>, persist: Seq<char>, tail: Seq<char>)
    requires
        single_region(encode_utf8(head), encode_utf8(persist), encode_utf8(tail)),
    ensures
        kept_text(encode_utf8(with_slot(head, persist, tail))) == persist,
{
    lemma_note_bytes(head, persist, tail);
    lemma_single_region_round_trip(encode_utf8(head), encode_utf8(persist), encode_utf8(tail));
    encode_utf8_decode_utf8(persist);
}

/// Idempotence of a source note: writing it, then reading back the text to
/// keep and writing again with the same data, gives the same text.
pub proof fn lemma_source_note_idempotent(
    properties: Seq<char>,
    key: Seq<char>,
    persist: Seq<char>,
    title: Seq<char>,
    content: Seq<char>,
)
    requires
        single_region(
            encode_utf8(source_head(properties, key)),
            encode_utf8(persist),
            encode_utf8(source_tail(title, content)),
        ),
    ensures
        ({
            let first = source_note_text(properties, key, persist, title, content);
            source_note_text(properties, key, kept_text(encode_utf8(first)), title, content) == first
        }),
{
    lemma_slot_round_trip(source_head(properties, key), persist, source_tail(title, content));
}

/// Idempotence of an annotation note: writing it, then reading back the text
/// to keep and writing again with the same data, gives the same text.
pub proof fn lemma_annotation_note_idempotent(
    properties: Seq<char>,
    text: Seq<char>,
    colour: Colour,
    persist: Seq<char>,
    content: Seq<char>,
)
    requires
        single_region(
            encode_utf8(annotation_head(properties, colour_text(colour), text)),
            encode_utf8(persist),
            encode_utf8(annotation_tail(content)),
        ),
    ensures
        ({
            let first = annotation_note_text(properties, text, colour, persist, content);
            annotation_note_text(properties, text, colour, kept_text(encode_utf8(first)), content)
                == first
        }),
{
    lemma_slot_round_trip(annotation_head(properties, colour_text(colour), text), persist, annotation_tail(content));
}

/// The data that a source note is made from.
#[derive(Debug, Clone, Copy)]
pub struct SourceImportData<'a> {
    pub source: &'a SourceImport,
}

/// The data that an annotation note is made from.
#[derive(Debug, Clone)]
pub struct AnnotationImportData<'a> {
    pub source: &'a SourceImport,
    pub annot: Annotation,
}

/// The text kept in a slot: what was preserved, else the empty slot.
pub open spec fn slot_text(persist: Option<Seq<char>>) -> Seq<char> {
    match persist {
        Some(p) => p,
        None => empty_slot(),
    }
}

/// The text of the source note for `data`, with front matter `properties`
/// and `persist` (when a previous note had one) in its persistent slot.
pub fn write_source(properties: &str, data: &SourceImportData, persist: Option<SourcePersist>) -> (r: String)
    ensures
        r@ == source_note_text(
            properties@,
            data.source.key@,
            slot_text(
                match persist {
                    Some(p) => Some(p.content_section@),
                    None => None,
                },
            ),
            data.source.title@,
            match data.source.note {
                Some(n) => n@,
                None => Seq::<char>::empty(),
            },
        ),
{
    let persist_section = match persist {
        Some(p) => p.content_section,
        None => SourcePersist::default().content_section,
    };
    let content: Option<&str> = match &data.source.note {
        Some(n) => Some(n.as_str()),
        None => None,
    };
    let note = SourceNote {
        properties,
        key: data.source.key.as_str(),
        persist: persist_section.as_str(),
        title: data.source.title.as_str(),
        content,
    };
    note.render()
}

/// The body of an annotation note made from `comment`: its section names
/// turned into headings.
pub open spec fn annotation_body(comment: Option<String>) -> Seq<char> {
    decode_utf8(
        fixed_headers(
            encode_utf8(
                match comment {
                    Some(c) => c@,
                    None => Seq::<char>::empty(),
                },
            ),
        ),
    )
}

/// The highlighted text an annotation note shows: the annotation's text, or `N/A`.
pub open spec fn annotation_shown_text(text: Option<String>) -> Seq<char> {
    match text {
        Some(t) => t@,
        None => "N/A"@,
    }
}

/// The text of the note for `data.annot`, with front matter `properties`
/// and `persist` (when a previous note had one) in its persistent slot.
pub fn write_annotation(properties: &str, data: &AnnotationImportData, persist: Option<AnnnotationPersist>) -> (r:
    String)
    ensures
        r@ == annotation_note_text(
            properties@,
            annotation_shown_text(data.annot.text),
            data.annot.colour,
            slot_text(
                match persist {
                    Some(p) => Some(p.content_section@),
                    None => None,
                },
            ),
            annotation_body(data.annot.comment),
        ),
{
    let persist_section = match persist {
        Some(p) => p.content_section,
        None => AnnnotationPersist::default().content_section,
    };
    let comment = match &data.annot.comment {
        Some(c) => c.clone(),
        None => String::new(),
    };
    let buffer = fixup_headers(comment);
    proof {
        encode_utf8_decode_utf8(buffer@);
    }
    let text: &str = match &data.annot.text {
        Some(t) => t.as_str(),
        None => "N/A",
    };
    let note = AnnotationNote {
        properties,
        text,
        colour: data.annot.colour,
        persist: persist_section.as_str(),
        content: buffer.as_str(),
    };
    note.render()
}

/// `b` begins with `p`.
pub open spec fn begins_with(b: Seq<u8>, p: Seq<u8>) -> bool {
    p.len() <= b.len() && b.subrange(0, p.len() as int) == p
}

/// The bytes of a note body with its section names turned into Markdown
/// headings: a body that opens with a section name gets a heading mark in
/// front, and every section name on a line of its own becomes a heading.
pub open spec fn fixed_headers(b: Seq<u8>) -> Seq<u8> {
    let opened = if begins_with(b, "Summary\n".spec_bytes()) || begins_with(b, "Quotable\n".spec_bytes())
        || begins_with(b, "Aim\n".spec_bytes()) {
        "# ".spec_bytes() + b
    } else {
        b
    };
    replaced(
        replaced(
            replaced(opened, "\nSummary\n".spec_bytes(), "\n# Summary\n".spec_bytes()),
            "\nQuotable\n".spec_bytes(),
            "\n# Quotable\n".spec_bytes(),
        ),
        "\nAim\n".spec_bytes(),
        "\n# Aim\n".spec_bytes(),
    )
}

proof fn lemma_section_names_ascii()
    ensures
        ascii_bytes("\nSummary\n".spec_bytes()),
        ascii_bytes("\nQuotable\n".spec_bytes()),
        ascii_bytes("\nAim\n".spec_bytes()),
        "\nSummary\n".spec_bytes().len() > 0,
        "\nQuotable\n".spec_bytes().len() > 0,
        "\nAim\n".spec_bytes().len() > 0,
{
    reveal_strlit("\nSummary\n");
    reveal_strlit("\nQuotable\n");
    reveal_strlit("\nAim\n");
    assert(is_ascii("\nSummary\n"));
    assert(is_ascii("\nQuotable\n"));
    assert(is_ascii("\nAim\n"));
    is_ascii_spec_bytes("\nSummary\n");
    is_ascii_spec_bytes("\nQuotable\n");
    is_ascii_spec_bytes("\nAim\n");
}

/// Turns the section names of an annotation comment into Markdown headings.
pub fn fixup_headers(buffer: String) -> (r: String)
    ensures
        encode_utf8(r@) == fixed_headers(encode_utf8(buffer@)),
{
    proof {
        lemma_section_names_ascii();
    }
    let mut buffer = buffer;
    if starts_with_bytes(buffer.as_str(), "Summary\n") || starts_with_bytes(buffer.as_str(), "Quotable\n")
        || starts_with_bytes(buffer.as_str(), "Aim\n") {
        let mut opened = String::from_str("# ");
        let ghost old_view = buffer@;
        opened.append(buffer.as_str());
        proof {
            lemma_encode_concat("# "@, old_view);
        }
        buffer = opened;
    }
    let a = replace_all(buffer.as_str(), "\nSummary\n", "\n# Summary\n");
    let b = replace_all(a.as_str(), "\nQuotable\n", "\n# Quotable\n");
    replace_all(b.as_str(), "\nAim\n", "\n# Aim\n")
}

} // verus!
