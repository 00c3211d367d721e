//! Matching the notes that an import expects against the note files already
//! on disk, and the confirmation that guards deleting the leftovers.

use vstd::prelude::*;

verus! {

/// A note file found in one of the output directories.
#[derive(Debug, Clone)]
pub struct ExistingFile {
    /// Where the file was found.
    pub path: String,
    /// Its file name without the note extension.
    pub stem: String,
}

impl ExistingFile {
    /// A field-by-field copy.
    pub fn duplicate(&self) -> (r: ExistingFile)
        ensures
            r == *self,
    {
        ExistingFile { path: self.path.clone(), stem: self.stem.clone() }
    }
}

/// A note that the import will write.
#[derive(Debug, Clone)]
pub struct AnnotationFile {
    /// The note's name: its file name without the note extension.
    pub path: String,
    /// Whether a file of that name already exists (it is updated, else created).
    pub exists: bool,
}

/// The outcome of matching expected notes against the files on disk.
#[derive(Debug, Clone)]
pub struct SourceFiles {
    /// The source note.
    pub source: AnnotationFile,
    /// One entry per annotation note, in the order of the expected names.
    pub annotations: Vec<AnnotationFile>,
    /// Files that no expected note claims: source directory first, then the
    /// annotation directory, each in listing order.
    pub residuals: Vec<ExistingFile>,
}

/// Why the existing note structure could not be settled.
#[derive(Debug, Clone, PartialEq, Eq)]
pub enum NoteFetchError {
    /// The user declined to delete the unrecognised notes.
    UnrecognizedSources,
    /// The confirmation prompt could not be shown or answered.
    Interact(String),
    /// The confirmation prompt has no one to answer it.
    Unattended,
    /// An output directory could not be read or created.
    Filesystem(String),
}

/// Some file of `files` has the stem `name`.
pub open spec fn stem_in(files: Seq<ExistingFile>, name: Seq<char>) -> bool {
    exists|i: int| 0 <= i < files.len() && (#[trigger] files[i]).stem@ == name
}

/// Some name of `names` equals `stem`.
pub open spec fn name_in(names: Seq<String>, stem: Seq<char>) -> bool {
    exists|j: int| 0 <= j < names.len() && (#[trigger] names[j])@ == stem
}

/// `files` without the first one whose stem is `name` (unchanged if none is).
pub open spec fn without_first(files: Seq<ExistingFile>, name: Seq<char>) -> Seq<ExistingFile>
    decreases files.len(),
{
    if files.len() == 0 {
        files
    } else if files[0].stem@ == name {
        files.drop_first()
    } else {
        seq![files[0]] + without_first(files.drop_first(), name)
    }
}

/// The files of `files` whose stem is none of `names`, in order.
pub open spec fn unclaimed(files: Seq<ExistingFile>, names: Seq<String>) -> Seq<ExistingFile>
    decreases files.len(),
{
    if files.len() == 0 {
        files
    } else {
        let last = files.last();
        unclaimed(files.drop_last(), names) + if name_in(names, last.stem@) {
            Seq::<ExistingFile>::empty()
        } else {
            seq![last]
        }
    }
}

/// `r` is the match of the source note `source_name` and the annotation notes
/// `names` against the listings of the source and annotation directories.
/// Each directory is matched only against its own notes.
pub open spec fn matched(
    source_name: Seq<char>,
    names: Seq<String>,
    source_listing: Seq<ExistingFile>,
    annotation_listing: Seq<ExistingFile>,
    r: SourceFiles,
) -> bool {
    &&& r.source.path@ == source_name
    &&& r.source.exists == stem_in(source_listing, source_name)
    &&& r.annotations@.len() == names.len()
    &&& forall|j: int|
        0 <= j < names.len() ==> {
            &&& (#[trigger] r.annotations@[j]).path@ == names[j]@
            &&& r.annotations@[j].exists == stem_in(annotation_listing, names[j]@)
        }
    &&& r.residuals@ == without_first(source_listing, source_name) + unclaimed(
        annotation_listing,
        names,
    )
}

fn contains_stem(files: &Vec<ExistingFile>, name: &String) -> (b: bool)
    ensures
        b == stem_in(files@, name@),
{
    let mut i: usize = 0;
    while i < files.len()
        invariant
            i <= files@.len(),
            forall|k: int| 0 <= k < i ==> (#[trigger] files@[k]).stem@ != name@,
        decreases files@.len() - i,
    {
        if files[i].stem == *name {
            return true;
        }
        i = i + 1;
    }
    false
}

fn contains_name(names: &Vec<String>, stem: &String) -> (b: bool)
    ensures
        b == name_in(names@, stem@),
{
    let mut j: usize = 0;
    while j < names.len()
        invariant
            j <= names@.len(),
            forall|k: int| 0 <= k < j ==> (#[trigger] names@[k])@ != stem@,
        decreases names@.len() - j,
    {
        if names[j] == *stem {
            return true;
        }
        j = j + 1;
    }
    false
}

proof fn lemma_without_first_skip(files: Seq<ExistingFile>, name: Seq<char>, i: int)
    requires
        0 <= i < files.len(),
    ensures
        files.skip(i)[0] == files[i],
        files.skip(i).drop_first() =~= files.skip(i + 1),
        files.skip(i) =~= seq![files[i]] + files.skip(i + 1),
{
}

/// Matches the source note `source_name` and the annotation notes `names`
/// against the note files listed in the source and annotation directories.
pub fn match_note_files(
    source_name: &String,
    names: &Vec<String>,
    source_listing: &Vec<ExistingFile>,
    annotation_listing: &Vec<ExistingFile>,
) -> (r: SourceFiles)
    ensures
        matched(source_name@, names@, source_listing@, annotation_listing@, r),
{
    let ghost src = source_listing@;
    let mut residuals: Vec<ExistingFile> = Vec::new();
    let mut found: bool = false;
    let mut i: usize = 0;
    assert(src.skip(0) =~= src);
    assert(residuals@ + src =~= src);
    while i < source_listing.len()
        invariant
            src == source_listing@,
            i <= src.len(),
            found == stem_in(src.take(i as int), source_name@),
            (if found {
                residuals@ + src.skip(i as int)
            } else {
                residuals@ + without_first(src.skip(i as int), source_name@)
            }) == without_first(src, source_name@),
        decreases src.len() - i,
    {
        proof {
            lemma_without_first_skip(src, source_name@, i as int);
            assert(src.take(i + 1) =~= src.take(i as int).push(src[i as int]));
        }
        let ghost before = residuals@;
        if !found && source_listing[i].stem == *source_name {
            found = true;
            proof {
                assert(src.take(i + 1)[i as int] == src[i as int]);
            }
        } else {
            residuals.push(source_listing[i].duplicate());
            proof {
                if found {
                    assert(residuals@ + src.skip(i + 1) =~= before + src.skip(i as int));
                } else {
                    assert(residuals@ + without_first(src.skip(i + 1), source_name@) =~= before
                        + without_first(src.skip(i as int), source_name@));
                    assert forall|k: int| 0 <= k < i + 1 implies (#[trigger] src.take(i + 1)[k]).stem@
                        != source_name@ by {
                        if k < i {
                            assert(src.take(i + 1)[k] == src.take(i as int)[k]);
                        }
                    }
                }
            }
        }
        i = i + 1;
    }
    proof {
        assert(src.take(i as int) =~= src);
        assert(src.skip(i as int) =~= Seq::<ExistingFile>::empty());
        assert(residuals@ + Seq::<ExistingFile>::empty() =~= residuals@);
    }
    let ghost ann = annotation_listing@;
    let ghost source_part = residuals@;
    let mut k: usize = 0;
    while k < annotation_listing.len()
        invariant
            ann == annotation_listing@,
            k <= ann.len(),
            residuals@ == source_part + unclaimed(ann.take(k as int), names@),
        decreases ann.len() - k,
    {
        proof {
            assert(ann.take(k + 1).drop_last() =~= ann.take(k as int));
            assert(ann.take(k + 1).last() == ann[k as int]);
        }
        if !contains_name(names, &annotation_listing[k].stem) {
            residuals.push(annotation_listing[k].duplicate());
            assert(residuals@ =~= source_part + unclaimed(ann.take(k + 1), names@));
        } else {
            assert(residuals@ =~= source_part + unclaimed(ann.take(k + 1), names@));
        }
        k = k + 1;
    }
    proof {
        assert(ann.take(k as int) =~= ann);
    }
    let mut annotations: Vec<AnnotationFile> = Vec::new();
    let mut j: usize = 0;
    while j < names.len()
        invariant
            j <= names@.len(),
            annotations@.len() == j,
            forall|m: int|
                0 <= m < j ==> {
                    &&& (#[trigger] annotations@[m]).path@ == names@[m]@
                    &&& annotations@[m].exists == stem_in(annotation_listing@, names@[m]@)
                },
        decreases names@.len() - j,
    {
        let exists = contains_stem(annotation_listing, &names[j]);
        annotations.push(AnnotationFile { path: names[j].clone(), exists });
        j = j + 1;
    }
    SourceFiles {
        source: AnnotationFile { path: source_name.clone(), exists: found },
        annotations,
        residuals,
    }
}

/// The files of `files` whose stem is not `name`, in order.
pub open spec fn others(files: Seq<ExistingFile>, name: Seq<char>) -> Seq<ExistingFile>
    decreases files.len(),
{
    if files.len() == 0 {
        files
    } else if files[0].stem@ == name {
        others(files.drop_first(), name)
    } else {
        seq![files[0]] + others(files.drop_first(), name)
    }
}

proof fn lemma_others_none(files: Seq<ExistingFile>, name: Seq<char>)
    requires
        forall|i: int| 0 <= i < files.len() ==> (#[trigger] files[i]).stem@ != name,
    ensures
        others(files, name) == files,
    decreases files.len(),
{
    if files.len() > 0 {
        let rest = files.drop_first();
        assert forall|i: int| 0 <= i < rest.len() implies (#[trigger] rest[i]).stem@ != name by {
            assert(rest[i] == files[i + 1]);
        }
        lemma_others_none(rest, name);
        assert(seq![files[0]] + rest =~= files);
    }
}

proof fn lemma_without_first_is_others(files: Seq<ExistingFile>, name: Seq<char>)
    requires
        distinct_stems(files),
    ensures
        without_first(files, name) == others(files, name),
    decreases files.len(),
{
    if files.len() > 0 {
        let rest = files.drop_first();
        assert(distinct_stems(rest)) by {
            assert forall|i: int, j: int| 0 <= i < j < rest.len() implies rest[i].stem@ != rest[j].stem@ by {
                assert(rest[i] == files[i + 1] && rest[j] == files[j + 1]);
            }
        }
        if files[0].stem@ == name {
            assert forall|i: int| 0 <= i < rest.len() implies (#[trigger] rest[i]).stem@ != name by {
                assert(rest[i] == files[i + 1]);
            }
            lemma_others_none(rest, name);
        } else {
            lemma_without_first_is_others(rest, name);
        }
    }
}

/// The stems of `files` are pairwise distinct, as the file names of one
/// directory that share an extension are.
pub open spec fn distinct_stems(files: Seq<ExistingFile>) -> bool {
    forall|i: int, j: int| 0 <= i < j < files.len() ==> files[i].stem@ != files[j].stem@
}

proof fn lemma_without_first_members(files: Seq<ExistingFile>, name: Seq<char>)
    requires
        distinct_stems(files),
    ensures
        forall|k: int|
            0 <= k < without_first(files, name).len() ==> {
                &&& (#[trigger] without_first(files, name)[k]).stem@ != name
                &&& files.contains(without_first(files, name)[k])
            },
    decreases files.len(),
{
    if files.len() == 0 {
    } else if files[0].stem@ == name {
        let w = without_first(files, name);
        assert forall|k: int| 0 <= k < w.len() implies {
            &&& (#[trigger] w[k]).stem@ != name
            &&& files.contains(w[k])
        } by {
            assert(w[k] == files[k + 1]);
        }
    } else {
        let rest = files.drop_first();
        assert(distinct_stems(rest)) by {
            assert forall|i: int, j: int| 0 <= i < j < rest.len() implies rest[i].stem@ != rest[j].stem@ by {
                assert(rest[i] == files[i + 1] && rest[j] == files[j + 1]);
            }
        }
        lemma_without_first_members(rest, name);
        let w = without_first(files, name);
        assert forall|k: int| 0 <= k < w.len() implies {
            &&& (#[trigger] w[k]).stem@ != name
            &&& files.contains(w[k])
        } by {
            if k == 0 {
                assert(w[0] == files[0]);
            } else {
                let x = without_first(rest, name)[k - 1];
                assert(w[k] == x);
                assert(rest.contains(x));
                let i = choose|i: int| 0 <= i < rest.len() && rest[i] == x;
                assert(files[i + 1] == x);
            }
        }
    }
}

proof fn lemma_unclaimed_members(files: Seq<ExistingFile>, names: Seq<String>)
    ensures
        forall|k: int|
            0 <= k < unclaimed(files, names).len() ==> {
                &&& !name_in(names, (#[trigger] unclaimed(files, names)[k]).stem@)
                &&& files.contains(unclaimed(files, names)[k])
            },
    decreases files.len(),
{
    if files.len() > 0 {
        let front = files.drop_last();
        lemma_unclaimed_members(front, names);
        let u = unclaimed(files, names);
        let uf = unclaimed(front, names);
        assert forall|k: int| 0 <= k < u.len() implies {
            &&& !name_in(names, (#[trigger] u[k]).stem@)
            &&& files.contains(u[k])
        } by {
            if k < uf.len() {
                assert(u[k] == uf[k]);
                assert(front.contains(uf[k]));
                let i = choose|i: int| 0 <= i < front.len() && front[i] == uf[k];
                assert(files[i] == uf[k]);
            } else {
                assert(u[k] == files.last());
                assert(files[files.len() - 1] == files.last());
            }
        }
    }
}

/// Reconciliation: the files left over for deletion are exactly the listed
/// files that no expected note claims, in listing order and none twice, and
/// none of them carries the name of an expected note; the source note and each annotation note is updated
/// exactly when a file of its name was found in its own directory, and
/// created otherwise. Each directory is matched against its own notes only,
/// so this holds where no file of one directory carries a name that belongs
/// to the other.
pub proof fn lemma_residuals_unclaimed(
    source_name: Seq<char>,
    names: Seq<String>,
    source_listing: Seq<ExistingFile>,
    annotation_listing: Seq<ExistingFile>,
    r: SourceFiles,
)
    requires
        matched(source_name, names, source_listing, annotation_listing, r),
        distinct_stems(source_listing),
        forall|i: int|
            0 <= i < source_listing.len() ==> !name_in(names, (#[trigger] source_listing[i]).stem@),
        forall|i: int|
            0 <= i < annotation_listing.len() ==> (#[trigger] annotation_listing[i]).stem@
                != source_name,
    ensures
        forall|k: int|
            0 <= k < r.residuals@.len() ==> {
                &&& (#[trigger] r.residuals@[k]).stem@ != source_name
                &&& !name_in(names, r.residuals@[k].stem@)
            },
        r.residuals@ == others(source_listing, source_name) + unclaimed(annotation_listing, names),
        r.source.exists <==> stem_in(source_listing, source_name),
        forall|j: int|
            0 <= j < names.len() ==> ((#[trigger] r.annotations@[j]).exists <==> stem_in(
                annotation_listing,
                names[j]@,
            )),
{
    lemma_without_first_members(source_listing, source_name);
    lemma_unclaimed_members(annotation_listing, names);
    lemma_without_first_is_others(source_listing, source_name);
    let w = without_first(source_listing, source_name);
    let u = unclaimed(annotation_listing, names);
    assert forall|k: int| 0 <= k < r.residuals@.len() implies {
        &&& (#[trigger] r.residuals@[k]).stem@ != source_name
        &&& !name_in(names, r.residuals@[k].stem@)
    } by {
        if k < w.len() {
            assert(r.residuals@[k] == w[k]);
            let i = choose|i: int| 0 <= i < source_listing.len() && source_listing[i] == w[k];
            assert(!name_in(names, source_listing[i].stem@));
        } else {
            assert(r.residuals@[k] == u[k - w.len()]);
            let x = u[k - w.len()];
            let i = choose|i: int| 0 <= i < annotation_listing.len() && annotation_listing[i] == x;
            assert(annotation_listing[i].stem@ != source_name);
        }
    }
}

/// Whether deleting the unclaimed files needs the user's confirmation first:
/// exactly when there are any.
pub fn needs_confirmation(files: &SourceFiles) -> (b: bool)
    ensures
        b == (files.residuals@.len() > 0),
{
    files.residuals.len() > 0
}

/// The paths that the confirmation prompt lists: those of the unclaimed files, in order.
pub fn residual_paths(files: &SourceFiles) -> (r: Vec<String>)
    ensures
        r@.len() == files.residuals@.len(),
        forall|k: int| 0 <= k < r@.len() ==> (#[trigger] r@[k])@ == files.residuals@[k].path@,
{
    let mut out: Vec<String> = Vec::new();
    let mut k: usize = 0;
    while k < files.residuals.len()
        invariant
            k <= files.residuals@.len(),
            out@.len() == k,
            forall|m: int| 0 <= m < k ==> (#[trigger] out@[m])@ == files.residuals@[m].path@,
        decreases files.residuals@.len() - k,
    {
        out.push(files.residuals[k].path.clone());
        k = k + 1;
    }
    out
}

/// Settles the deletion gate. `reply` is the answer to the confirmation prompt
/// (`Ok(true)` to delete), or why no answer could be had; it is not consulted
/// when nothing is to be deleted. Declining ends the import before any note is
/// touched.
pub fn settle_deletion(files: SourceFiles, reply: Result<bool, NoteFetchError>) -> (r: Result<
    SourceFiles,
    NoteFetchError,
>)
    ensures
        files.residuals@.len() == 0 ==> r == Ok::<SourceFiles, NoteFetchError>(files),
        files.residuals@.len() > 0 ==> r == match reply {
            Ok(true) => Ok::<SourceFiles, NoteFetchError>(files),
            Ok(false) => Err(NoteFetchError::UnrecognizedSources),
            Err(e) => Err(e),
        },
{
    if files.residuals.len() == 0 {
        return Ok(files);
    }
    match reply {
        Ok(true) => Ok(files),
        Ok(false) => Err(NoteFetchError::UnrecognizedSources),
        Err(e) => Err(e),
    }
}

} // verus!
