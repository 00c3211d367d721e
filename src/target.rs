//! The per-note step of an import: what a rewritten note keeps of its
//! previous text.

use vstd::prelude::*;
use vstd::string::*;
use vstd::utf8::*;

use crate::persistent::{get_persistent_sections, persistent_spans, FetchPersistentError};

verus! {

/// The text that fills the persistent slot of a note that has none to keep.
pub open spec fn empty_slot() -> Seq<char> {
    seq!['\n']
}

/// The text that a rewrite of a note keeps in its persistent slot, given the
/// bytes the note held before (when its regions can be read): the first
/// region, or the empty slot when there is none.
pub open spec fn kept_text(previous: Seq<u8>) -> Seq<char> {
    match persistent_spans(previous) {
        Ok(spans) => if spans.len() > 0 {
            decode_utf8(previous.subrange(spans[0].0, spans[0].1))
        } else {
            empty_slot()
        },
        Err(_) => empty_slot(),
    }
}

/// The filler of an empty persistent slot: a single newline.
pub fn empty_slot_text() -> (r: String)
    ensures
        r@ == empty_slot(),
{
    let s = String::from_str("\n");
    proof {
        reveal_strlit("\n");
    }
    assert(s@ =~= empty_slot());
    s
}

/// A note about to be written, with what was read of its previous text.
#[derive(Debug, Clone)]
pub struct NoteTarget {
    /// Whether the note's file already exists (it is updated, else created).
    pub exists: bool,
    /// The persistent regions of the previous text, in document order.
    pub persists: Vec<String>,
}

impl NoteTarget {
    /// A target with nothing read yet.
    pub fn new(exists: bool) -> (r: NoteTarget)
        ensures
            r.exists == exists,
            r.persists@.len() == 0,
    {
        NoteTarget { exists, persists: Vec::new() }
    }

    /// Reads the persistent regions of `data`, the note's previous text.
    /// On a structural fault nothing changes.
    pub fn parse_persists(&mut self, data: &str) -> (r: Result<(), FetchPersistentError>)
        ensures
            final(self).exists == old(self).exists,
            match persistent_spans(data.spec_bytes()) {
                Ok(spans) => {
                    &&& r is Ok
                    &&& final(self).persists@.len() == spans.len()
                    &&& forall|k: int|
                        0 <= k < spans.len() ==> (#[trigger] final(self).persists@[k])@
                            == decode_utf8(data.spec_bytes().subrange(spans[k].0, spans[k].1))
                },
                Err(e) => r == Err::<(), FetchPersistentError>(e) && *final(self) == *old(self),
            },
    {
        let sections = match get_persistent_sections(data) {
            Ok(sections) => sections,
            Err(e) => {
                return Err(e);
            },
        };
        let ghost spans = persistent_spans(data.spec_bytes())->Ok_0;
        let mut persists: Vec<String> = Vec::new();
        let mut k: usize = 0;
        while k < sections.len()
            invariant
                k <= sections@.len(),
                sections@.len() == spans.len(),
                forall|m: int|
                    0 <= m < spans.len() ==> (#[trigger] sections@[m]).spec_bytes()
                        == data.spec_bytes().subrange(spans[m].0, spans[m].1),
                persists@.len() == k,
                forall|m: int|
                    0 <= m < k ==> (#[trigger] persists@[m])@ == decode_utf8(
                        data.spec_bytes().subrange(spans[m].0, spans[m].1),
                    ),
            decreases sections@.len() - k,
        {
            let section: &str = sections[k];
            proof {
                encode_utf8_decode_utf8(section@);
            }
            persists.push(section.to_owned());
            k = k + 1;
        }
        self.persists = persists;
        Ok(())
    }

    /// The text to embed in the note's persistent slot: the first region read
    /// from an existing note, else the empty slot.
    pub fn persist_text(&self) -> (r: String)
        ensures
            r@ == if self.exists && self.persists@.len() > 0 {
                self.persists@[0]@
            } else {
                empty_slot()
            },
    {
        if self.exists && self.persists.len() > 0 {
            self.persists[0].clone()
        } else {
            empty_slot_text()
        }
    }
}

/// The text to embed in the persistent slot of a note being rewritten:
/// nothing is read of a note that does not exist yet; of an existing one,
/// `previous` is its text before the rewrite.
pub fn preserved_text(exists: bool, previous: &str) -> (r: Result<String, FetchPersistentError>)
    ensures
        !exists ==> r is Ok && r->Ok_0@ == empty_slot(),
        exists ==> match persistent_spans(previous.spec_bytes()) {
            Ok(_) => r is Ok && r->Ok_0@ == kept_text(previous.spec_bytes()),
            Err(e) => r == Err::<String, FetchPersistentError>(e),
        },
{
    let mut target = NoteTarget::new(exists);
    if exists {
        match target.parse_persists(previous) {
            Ok(()) => {},
            Err(e) => {
                return Err(e);
            },
        }
    }
    Ok(target.persist_text())
}

} // verus!
