//! Locating the delimiter-bounded, user-editable regions of a note.

use itertools::{EitherOrBoth, Itertools};
use vstd::prelude::*;
use vstd::string::*;
use vstd::utf8::*;

use crate::global::{PERSISTENT_BEGIN, PERSISTENT_END};
use crate::text::{byte_slice, lemma_boundary_beside_ascii};

verus! {

/// Structural faults of a note's persistent regions.
#[derive(Debug, Clone, Copy, PartialEq, Eq, Structural)]
pub enum FetchPersistentError {
    /// A region opens (at this byte offset) before the previous one has closed.
    NestedSections(usize),
    /// The opening and closing markers do not pair up.
    MismatchedDelimiters,
}

/// The bytes of the opening marker.
pub open spec fn begin_marker() -> Seq<u8> {
    PERSISTENT_BEGIN.spec_bytes()
}

/// The bytes of the closing marker.
pub open spec fn end_marker() -> Seq<u8> {
    PERSISTENT_END.spec_bytes()
}

/// Both markers are non-empty and made of ASCII bytes only.
pub proof fn lemma_markers_ascii()
    ensures
        begin_marker().len() == 24,
        end_marker().len() == 19,
        forall|i: int| 0 <= i < begin_marker().len() ==> #[trigger] begin_marker()[i] < 0x80,
        forall|i: int| 0 <= i < end_marker().len() ==> #[trigger] end_marker()[i] < 0x80,
{
    reveal_strlit("<!--SZO-Persist-Begin-->");
    reveal_strlit("%%SZO-Persist-End%%");
    assert(is_ascii(PERSISTENT_BEGIN));
    assert(is_ascii(PERSISTENT_END));
    is_ascii_spec_bytes(PERSISTENT_BEGIN);
    is_ascii_spec_bytes(PERSISTENT_END);
}

/// True when `pat` occurs in `data` starting at byte `i`.
pub open spec fn occurs_at(data: Seq<u8>, pat: Seq<u8>, i: int) -> bool {
    &&& 0 <= i
    &&& i + pat.len() <= data.len()
    &&& data.subrange(i, i + pat.len()) == pat
}

/// Offsets of the non-overlapping occurrences of `pat` in `data` at or after
/// `from`, found left to right (each search resumes after the previous match).
pub open spec fn occurrences_from(data: Seq<u8>, pat: Seq<u8>, from: nat) -> Seq<int>
    decreases data.len() - from,
{
    if pat.len() == 0 || from + pat.len() > data.len() {
        seq![]
    } else if occurs_at(data, pat, from as int) {
        seq![from as int] + occurrences_from(data, pat, from + pat.len())
    } else {
        occurrences_from(data, pat, from + 1)
    }
}

/// Offsets of the non-overlapping occurrences of `pat` in `data`.
pub open spec fn occurrences(data: Seq<u8>, pat: Seq<u8>) -> Seq<int> {
    occurrences_from(data, pat, 0)
}

pub(crate) fn matches_at(data: &[u8], pat: &[u8], i: usize) -> (b: bool)
    requires
        i + pat@.len() <= data@.len(),
    ensures
        b == occurs_at(data@, pat@, i as int),
{
    let n: usize = data.len();
    let mut j: usize = 0;
    while j < pat.len()
        invariant
            n == data@.len(),
            i + pat@.len() <= data@.len(),
            j <= pat@.len(),
            forall|k: int| 0 <= k < j ==> data@[i + k] == pat@[k],
        decreases pat@.len() - j,
    {
        if data[i + j] != pat[j] {
            assert(data@.subrange(i as int, i + pat@.len())[j as int] != pat@[j as int]);
            return false;
        }
        j = j + 1;
    }
    assert(data@.subrange(i as int, i + pat@.len()) =~= pat@);
    true
}

/// Byte offsets of the non-overlapping occurrences of `pat` in `data`, left to right.
pub fn find_occurrences(data: &[u8], pat: &[u8]) -> (r: Vec<usize>)
    requires
        pat@.len() > 0,
    ensures
        r@.map_values(|o: usize| o as int) == occurrences(data@, pat@),
{
    let mut out: Vec<usize> = Vec::new();
    let mut i: usize = 0;
    while i <= data.len() && pat.len() <= data.len() - i
        invariant
            pat@.len() > 0,
            i <= data@.len() + 1,
            out@.map_values(|o: usize| o as int) + occurrences_from(data@, pat@, i as nat)
                == occurrences(data@, pat@),
        decreases data@.len() + 1 - i,
    {
        if matches_at(data, pat, i) {
            let ghost before = out@;
            out.push(i);
            assert(out@.map_values(|o: usize| o as int) =~= before.map_values(|o: usize| o as int)
                + seq![i as int]);
            assert(out@.map_values(|o: usize| o as int) + occurrences_from(data@, pat@, (i + pat@.len()) as nat)
                =~= before.map_values(|o: usize| o as int) + occurrences_from(data@, pat@, i as nat));
            i = i + pat.len();
        } else {
            i = i + 1;
        }
    }
    assert(occurrences_from(data@, pat@, i as nat) == Seq::<int>::empty());
    assert(out@.map_values(|o: usize| o as int) =~= out@.map_values(|o: usize| o as int) + Seq::<int>::empty());
    out
}

/// The bytes `prefix`, opening marker, `text`, closing marker, `suffix`, in turn.
pub open spec fn framed(prefix: Seq<u8>, text: Seq<u8>, suffix: Seq<u8>) -> Seq<u8> {
    prefix + begin_marker() + text + end_marker() + suffix
}

/// In `framed(prefix, text, suffix)` the markers occur only where the frame
/// puts them.
pub open spec fn single_region(prefix: Seq<u8>, text: Seq<u8>, suffix: Seq<u8>) -> bool {
    let whole = framed(prefix, text, suffix);
    &&& forall|i: int| occurs_at(whole, begin_marker(), i) ==> i == prefix.len()
    &&& forall|i: int|
        occurs_at(whole, end_marker(), i) ==> i == prefix.len() + begin_marker().len() + text.len()
}

proof fn lemma_occurrences_none(data: Seq<u8>, pat: Seq<u8>, from: nat)
    requires
        forall|i: int| from <= i ==> !occurs_at(data, pat, i),
    ensures
        occurrences_from(data, pat, from) == Seq::<int>::empty(),
    decreases data.len() - from,
{
    if pat.len() == 0 || from + pat.len() > data.len() {
    } else {
        lemma_occurrences_none(data, pat, from + 1);
    }
}

proof fn lemma_occurrences_single(data: Seq<u8>, pat: Seq<u8>, from: nat, at: int)
    requires
        pat.len() > 0,
        from <= at,
        occurs_at(data, pat, at),
        forall|i: int| from <= i && occurs_at(data, pat, i) ==> i == at,
    ensures
        occurrences_from(data, pat, from) == seq![at],
    decreases data.len() - from,
{
    if from == at {
        lemma_occurrences_none(data, pat, from + pat.len());
        assert(seq![at] + Seq::<int>::empty() =~= seq![at]);
    } else {
        lemma_occurrences_single(data, pat, from + 1, at);
    }
}

/// A text framed by one opening and one closing marker, where the markers
/// occur nowhere else, has exactly one persistent region: that text.
pub proof fn lemma_single_region_round_trip(prefix: Seq<u8>, text: Seq<u8>, suffix: Seq<u8>)
    requires
        single_region(prefix, text, suffix),
    ensures
        persistent_spans(framed(prefix, text, suffix)) == Ok::<Seq<(int, int)>, FetchPersistentError>(
            seq![
                (
                    (prefix.len() + begin_marker().len()) as int,
                    (prefix.len() + begin_marker().len() + text.len()) as int,
                ),
            ],
        ),
        framed(prefix, text, suffix).subrange(
            (prefix.len() + begin_marker().len()) as int,
            (prefix.len() + begin_marker().len() + text.len()) as int,
        ) == text,
{
    lemma_markers_ascii();
    let whole = framed(prefix, text, suffix);
    let b = begin_marker();
    let e = end_marker();
    let s = prefix.len() as int;
    let t = s + b.len() + text.len();
    assert(whole.subrange(s, s + b.len()) =~= b);
    assert(whole.subrange(t, t + e.len()) =~= e);
    lemma_occurrences_single(whole, b, 0, s);
    lemma_occurrences_single(whole, e, 0, t);
    assert(spans_from(seq![s], seq![t], 1, t) == Ok::<Seq<(int, int)>, FetchPersistentError>(seq![]));
    assert(seq![(s + b.len(), t)] + Seq::<(int, int)>::empty() =~= seq![(s + b.len(), t)]);
    assert(whole.subrange(s + b.len(), t) =~= text);
}

/// Pairs the i-th opening offset with the i-th closing offset, in order,
/// starting at pair `i`; `last_end` is the closing offset of the previous pair.
/// The result holds the byte span strictly between the markers of each pair.
pub open spec fn spans_from(starts: Seq<int>, ends: Seq<int>, i: nat, last_end: int) -> Result<
    Seq<(int, int)>,
    FetchPersistentError,
>
    decreases (if starts.len() > ends.len() { starts.len() } else { ends.len() }) - i,
{
    if i >= starts.len() && i >= ends.len() {
        Ok(seq![])
    } else if i >= starts.len() || i >= ends.len() {
        Err(FetchPersistentError::MismatchedDelimiters)
    } else if starts[i as int] < last_end {
        Err(FetchPersistentError::NestedSections(starts[i as int] as usize))
    } else if ends[i as int] < starts[i as int] + begin_marker().len() {
        Err(FetchPersistentError::MismatchedDelimiters)
    } else {
        match spans_from(starts, ends, i + 1, ends[i as int]) {
            Ok(rest) => Ok(seq![(starts[i as int] + begin_marker().len(), ends[i as int])] + rest),
            Err(e) => Err(e),
        }
    }
}

/// The byte spans of the persistent regions of `data`, in document order,
/// or the structural fault that prevents reading them: differing numbers of
/// opening and closing markers first, then a region that opens before the
/// previous one has closed.
pub open spec fn persistent_spans(data: Seq<u8>) -> Result<Seq<(int, int)>, FetchPersistentError> {
    let starts = occurrences(data, begin_marker());
    let ends = occurrences(data, end_marker());
    if starts.len() != ends.len() {
        Err(FetchPersistentError::MismatchedDelimiters)
    } else {
        spans_from(starts, ends, 0, 0)
    }
}

/// `sections` are the texts of `data` at `spans`.
pub open spec fn texts_at(data: Seq<u8>, spans: Seq<(int, int)>, sections: Seq<&str>) -> bool {
    &&& sections.len() == spans.len()
    &&& forall|k: int|
        0 <= k < spans.len() ==> (#[trigger] sections[k]).spec_bytes() == data.subrange(
            spans[k].0,
            spans[k].1,
        )
}

/// Every offset found lies at a match, no earlier than where the search began.
pub proof fn lemma_occurrences_match(data: Seq<u8>, pat: Seq<u8>, from: nat)
    ensures
        forall|k: int|
            0 <= k < occurrences_from(data, pat, from).len() ==> {
                let o = #[trigger] occurrences_from(data, pat, from)[k];
                &&& from <= o
                &&& occurs_at(data, pat, o)
            },
    decreases data.len() - from,
{
    if pat.len() == 0 || from + pat.len() > data.len() {
    } else if occurs_at(data, pat, from as int) {
        lemma_occurrences_match(data, pat, from + pat.len());
        let rest = occurrences_from(data, pat, from + pat.len());
        assert forall|k: int| 0 <= k < occurrences_from(data, pat, from).len() implies {
            let o = #[trigger] occurrences_from(data, pat, from)[k];
            &&& from <= o
            &&& occurs_at(data, pat, o)
        } by {
            if k > 0 {
                assert(occurrences_from(data, pat, from)[k] == rest[k - 1]);
            }
        }
    } else {
        lemma_occurrences_match(data, pat, from + 1);
        assert forall|k: int| 0 <= k < occurrences_from(data, pat, from).len() implies {
            let o = #[trigger] occurrences_from(data, pat, from)[k];
            &&& from <= o
            &&& occurs_at(data, pat, o)
        } by {
            assert(occurrences_from(data, pat, from)[k] == occurrences_from(data, pat, from + 1)[k]);
        }
    }
}

/// Relies on itertools' `zip_longest`: the i-th items of both sequences side by
/// side, for as long as the longer one lasts, with `None` for a side that has ended.
#[verifier::external_body]
fn zip_longest_offsets(a: &Vec<usize>, b: &Vec<usize>) -> (r: Vec<(Option<usize>, Option<usize>)>)
    ensures
        r@.len() == (if a@.len() >= b@.len() { a@.len() } else { b@.len() }),
        forall|i: int|
            0 <= i < r@.len() ==> #[trigger] r@[i] == (
                if i < a@.len() { Some(a@[i]) } else { None },
                if i < b@.len() { Some(b@[i]) } else { None },
            ),
{
    a.iter().copied().zip_longest(b.iter().copied()).map(|p| match p {
        EitherOrBoth::Both(x, y) => (Some(x), Some(y)),
        EitherOrBoth::Left(x) => (Some(x), None),
        EitherOrBoth::Right(y) => (None, Some(y)),
    }).collect()
}

/// The texts of the persistent regions of `data`, in document order, without
/// their markers; or the structural fault that prevents reading them.
pub fn get_persistent_sections<'a>(data: &'a str) -> (r: Result<Vec<&'a str>, FetchPersistentError>)
    ensures
        match persistent_spans(data.spec_bytes()) {
            Ok(spans) => r is Ok && texts_at(data.spec_bytes(), spans, r->Ok_0@),
            Err(e) => r == Err::<Vec<&'a str>, FetchPersistentError>(e),
        },
{
    let ghost bytes = data.spec_bytes();
    proof {
        lemma_markers_ascii();
        encode_utf8_valid_utf8(data@);
    }
    let begin = PERSISTENT_BEGIN.as_bytes();
    let end_marker_bytes = PERSISTENT_END.as_bytes();
    let starts = find_occurrences(data.as_bytes(), begin);
    let ends = find_occurrences(data.as_bytes(), end_marker_bytes);
    let ghost ss = occurrences(bytes, begin_marker());
    let ghost es = occurrences(bytes, end_marker());
    proof {
        lemma_occurrences_match(bytes, begin_marker(), 0);
        lemma_occurrences_match(bytes, end_marker(), 0);
        assert(starts@.len() == ss.len());
        assert(ends@.len() == es.len());
    }
    if starts.len() != ends.len() {
        return Err(FetchPersistentError::MismatchedDelimiters);
    }
    let pairs = zip_longest_offsets(&starts, &ends);
    let mut out: Vec<&'a str> = Vec::new();
    let ghost mut done: Seq<(int, int)> = seq![];
    let mut last_end: usize = 0;
    let mut i: usize = 0;
    while i < pairs.len()
        invariant
            bytes == data.spec_bytes(),
            valid_utf8(bytes),
            begin@ == begin_marker(),
            ss == occurrences(bytes, begin_marker()),
            es == occurrences(bytes, end_marker()),
            starts@.map_values(|o: usize| o as int) == ss,
            ends@.map_values(|o: usize| o as int) == es,
            forall|k: int| 0 <= k < ss.len() ==> occurs_at(bytes, begin_marker(), #[trigger] ss[k]),
            forall|k: int| 0 <= k < es.len() ==> occurs_at(bytes, end_marker(), #[trigger] es[k]),
            forall|j: int| 0 <= j < begin_marker().len() ==> #[trigger] begin_marker()[j] < 0x80,
            forall|j: int| 0 <= j < end_marker().len() ==> #[trigger] end_marker()[j] < 0x80,
            begin_marker().len() == 24,
            end_marker().len() == 19,
            pairs@.len() == (if starts@.len() >= ends@.len() { starts@.len() } else { ends@.len() }),
            forall|j: int|
                0 <= j < pairs@.len() ==> #[trigger] pairs@[j] == (
                    if j < starts@.len() { Some(starts@[j]) } else { None },
                    if j < ends@.len() { Some(ends@[j]) } else { None },
                ),
            i <= pairs@.len(),
            texts_at(bytes, done, out@),
            persistent_spans(bytes) == match spans_from(ss, es, i as nat, last_end as int) {
                Ok(rest) => Ok(done + rest),
                Err(e) => Err(e),
            },
        decreases pairs@.len() - i,
    {
        let (start, end) = match pairs[i] {
            (Some(start), Some(end)) => (start, end),
            _ => {
                return Err(FetchPersistentError::MismatchedDelimiters);
            },
        };
        assert(ss[i as int] == start as int);
        assert(es[i as int] == end as int);
        if start < last_end {
            return Err(FetchPersistentError::NestedSections(start));
        }
        if end < start || end - start < begin.len() {
            return Err(FetchPersistentError::MismatchedDelimiters);
        }
        proof {
            assert(occurs_at(bytes, begin_marker(), ss[i as int]));
            assert(occurs_at(bytes, end_marker(), es[i as int]));
            assert(bytes[start + 23] == begin_marker()[23]);
            assert(bytes[end as int] == end_marker()[0]);
            lemma_boundary_beside_ascii(bytes, start + 24);
            lemma_boundary_beside_ascii(bytes, end as int);
        }
        let section = byte_slice(data, start + begin.len(), end);
        let ghost span = ((start + 24) as int, end as int);
        proof {
            let rest = spans_from(ss, es, (i + 1) as nat, end as int);
            if let Ok(r) = rest {
                assert(seq![span] + r == seq![span] + r);
                assert(done + (seq![span] + r) =~= done.push(span) + r);
            }
        }
        out.push(section);
        proof {
            done = done.push(span);
        }
        last_end = end;
        i = i + 1;
    }
    proof {
        assert(spans_from(ss, es, i as nat, last_end as int) == Ok::<Seq<(int, int)>, FetchPersistentError>(seq![]));
        assert(done + Seq::<(int, int)>::empty() =~= done);
    }
    Ok(out)
}

} // verus!
