//! The reference item being imported and its annotations, and the names of
//! the notes written for them.

use vstd::prelude::*;
use vstd::string::*;
use vstd::utf8::*;

use crate::format::{hex_digit, hex_digit_str, Colour};
use crate::human_date::{date_outcome, HumanDate};
use crate::text::{replace_all, replaced};

verus! {

/// A person's name in parts.
#[derive(Debug, Clone)]
pub struct FullName {
    pub first: String,
    pub last: String,
}

/// A person's name, in parts or as one string.
#[derive(Debug, Clone)]
pub enum Name {
    Full(FullName),
    Combined(String),
}

/// An author of a reference item.
#[derive(Debug, Clone)]
pub struct Author {
    pub name: Name,
}

/// How an author's name is written out: first and last name, or the name as given.
pub open spec fn author_text(a: Author) -> Seq<char> {
    match a.name {
        Name::Full(full) => full.first@ + " "@ + full.last@,
        Name::Combined(combined) => combined@,
    }
}

/// The part of an author's name that names a note: the last name, or the
/// name as given.
pub open spec fn author_key(a: Author) -> Seq<char> {
    match a.name {
        Name::Full(full) => full.last@,
        Name::Combined(combined) => combined@,
    }
}

impl Author {
    /// The author's name written out.
    pub fn to_string(&self) -> (r: String)
        ensures
            r@ == author_text(*self),
    {
        match &self.name {
            Name::Full(full) => {
                let mut out = full.first.clone();
                out.append(" ");
                out.append(full.last.as_str());
                out
            },
            Name::Combined(combined) => combined.clone(),
        }
    }
}

/// A tag of an item or an annotation.
#[derive(Debug, Clone)]
pub struct Tag {
    pub name: String,
}

/// The reference item that an import is about.
#[derive(Debug, Clone)]
pub struct SourceImport {
    pub library: i32,
    pub id: i32,
    pub key: String,
    pub kind: String,
    pub title: String,
    pub note: Option<String>,
    pub date: String,
    pub url: Option<String>,
    pub authors: Vec<Author>,
    pub tags: Vec<Tag>,
    pub date_added: String,
    pub date_modified: String,
    pub path: String,
}

/// The decimal digits of `n`.
pub open spec fn decimal_text(n: nat) -> Seq<char>
    decreases n,
{
    if n < 10 {
        seq![hex_digit(n as u8)]
    } else {
        decimal_text(n / 10) + seq![hex_digit((n % 10) as u8)]
    }
}

fn push_decimal(out: &mut String, n: u32)
    ensures
        final(out)@ == old(out)@ + decimal_text(n as nat),
    decreases n,
{
    if n >= 10 {
        push_decimal(out, n / 10);
    }
    let ghost mid = out@;
    out.append(hex_digit_str((n % 10) as u8));
    proof {
        if n >= 10 {
            assert(out@ =~= old(out)@ + decimal_text(n as nat));
        } else {
            assert(out@ =~= old(out)@ + decimal_text(n as nat));
        }
    }
}

/// The name of a source's note: its short name.
pub open spec fn short_name_text(author: Author, year: u32) -> Seq<char> {
    author_key(author) + " "@ + decimal_text(year as nat)
}

impl SourceImport {
    /// The item's date, if it can be read.
    pub fn parse_date(&self) -> (r: Result<HumanDate, ()>)
        ensures
            r == match date_outcome(self.date@) {
                Ok(d) => Ok::<HumanDate, ()>(d),
                Err(_) => Err(()),
            },
    {
        match HumanDate::parse(self.date.as_str()) {
            Ok(d) => Ok(d),
            Err(_) => Err(()),
        }
    }

    /// The year of the item's date.
    pub fn year(&self) -> (r: u32)
        requires
            date_outcome(self.date@) is Ok,
        ensures
            r == date_outcome(self.date@)->Ok_0.year,
    {
        match self.parse_date() {
            Ok(d) => d.year,
            Err(_) => 0,
        }
    }

    /// The first author.
    pub fn primary_author(&self) -> (r: &Author)
        requires
            self.authors@.len() > 0,
        ensures
            *r == self.authors@[0],
    {
        &self.authors[0]
    }

    /// The item's short name: the first author's last name and the year.
    pub fn short_name(&self) -> (r: String)
        requires
            self.authors@.len() > 0,
            date_outcome(self.date@) is Ok,
        ensures
            r@ == short_name_text(self.authors@[0], date_outcome(self.date@)->Ok_0.year),
    {
        let mut out = match &self.primary_author().name {
            Name::Full(full) => full.last.clone(),
            Name::Combined(combined) => combined.clone(),
        };
        out.append(" ");
        push_decimal(&mut out, self.year());
        out
    }

    /// The name of the item's note: its title.
    pub fn file_name(&self) -> (r: String)
        ensures
            r@ == self.title@,
    {
        self.title.clone()
    }
}

/// The item's short name, when it has an author and a readable date; `None` otherwise.
pub fn try_short_name(source: &SourceImport) -> (r: Option<String>)
    ensures
        (source.authors@.len() > 0 && date_outcome(source.date@) is Ok) <==> r is Some,
        r is Some ==> r->Some_0@ == short_name_text(
            source.authors@[0],
            date_outcome(source.date@)->Ok_0.year,
        ),
{
    if source.authors.len() == 0 {
        return None;
    }
    match source.parse_date() {
        Ok(_) => Some(source.short_name()),
        Err(_) => None,
    }
}

/// The name of an annotation's note: the source's short name and the
/// annotation's key.
pub fn annotation_note_name(short_name: &str, key: &str) -> (r: String)
    ensures
        r@ == short_name@ + " "@ + key@,
{
    let mut out = String::from_str(short_name);
    out.append(" ");
    out.append(key);
    out
}

/// The kind of an annotation.
#[derive(Debug, Clone, Copy, PartialEq, Eq, Structural)]
pub enum AnnotationType {
    Highlight,
    Unknown,
}

/// An annotation of the item, as far as its note needs it.
#[derive(Debug, Clone)]
pub struct Annotation {
    pub key: String,
    pub kind: AnnotationType,
    pub page: u32,
    pub text: Option<String>,
    pub comment: Option<String>,
    pub colour: Colour,
    pub tags: Vec<Tag>,
}

/// A tag as it is written into note properties: its spaces become underscores.
pub open spec fn tag_text(tag: Tag, written: Seq<char>) -> bool {
    encode_utf8(written) == replaced(encode_utf8(tag.name@), " ".spec_bytes(), "_".spec_bytes())
}

proof fn lemma_space_ascii()
    ensures
        " ".spec_bytes().len() == 1,
        " ".spec_bytes()[0] < 0x80,
{
    reveal_strlit(" ");
    assert(is_ascii(" "));
    is_ascii_spec_bytes(" ");
}

/// The tags, as written into note properties.
pub fn tag_names(tags: &Vec<Tag>) -> (r: Vec<String>)
    ensures
        r@.len() == tags@.len(),
        forall|k: int| 0 <= k < r@.len() ==> tag_text(tags@[k], #[trigger] r@[k]@),
{
    proof {
        lemma_space_ascii();
    }
    let mut out: Vec<String> = Vec::new();
    let mut k: usize = 0;
    while k < tags.len()
        invariant
            " ".spec_bytes().len() == 1,
            " ".spec_bytes()[0] < 0x80,
            k <= tags@.len(),
            out@.len() == k,
            forall|m: int| 0 <= m < k ==> tag_text(tags@[m], #[trigger] out@[m]@),
        decreases tags@.len() - k,
    {
        out.push(replace_all(tags[k].name.as_str(), " ", "_"));
        k = k + 1;
    }
    out
}

/// The front matter of a source note.
#[derive(Debug, Clone)]
pub struct SourceProperties {
    pub authors: Vec<String>,
    pub date: String,
    pub tags: Vec<String>,
}

/// The front matter of an annotation note.
#[derive(Debug, Clone)]
pub struct AnnotationProperties {
    /// A link to the source note.
    pub source: String,
    pub tags: Vec<String>,
}

/// The front matter of the source note of `source`.
pub fn source_properties(source: &SourceImport) -> (r: SourceProperties)
    ensures
        r.authors@.len() == source.authors@.len(),
        forall|k: int|
            0 <= k < r.authors@.len() ==> (#[trigger] r.authors@[k])@ == author_text(source.authors@[k]),
        r.date@ == source.date@,
        r.tags@.len() == source.tags@.len(),
        forall|k: int| 0 <= k < r.tags@.len() ==> tag_text(source.tags@[k], #[trigger] r.tags@[k]@),
{
    let mut authors: Vec<String> = Vec::new();
    let mut k: usize = 0;
    while k < source.authors.len()
        invariant
            k <= source.authors@.len(),
            authors@.len() == k,
            forall|m: int| 0 <= m < k ==> (#[trigger] authors@[m])@ == author_text(source.authors@[m]),
        decreases source.authors@.len() - k,
    {
        authors.push(source.authors[k].to_string());
        k = k + 1;
    }
    SourceProperties { authors, date: source.date.clone(), tags: tag_names(&source.tags) }
}

/// The front matter of the note of `annot`, an annotation of `source`.
pub fn annotation_properties(source: &SourceImport, annot: &Annotation) -> (r: AnnotationProperties)
    ensures
        r.source@ == "[["@ + source.title@ + "]]"@,
        r.tags@.len() == annot.tags@.len(),
        forall|k: int| 0 <= k < r.tags@.len() ==> tag_text(annot.tags@[k], #[trigger] r.tags@[k]@),
{
    let mut link = String::from_str("[[");
    link.append(source.file_name().as_str());
    link.append("]]");
    AnnotationProperties { source: link, tags: tag_names(&annot.tags) }
}

} // verus!
