//! Byte-level work on UTF-8 text: slicing at byte offsets, prefixes and
//! replacement of ASCII patterns.

use vstd::prelude::*;
use vstd::string::*;
use vstd::utf8::*;

use crate::persistent::{matches_at, occurs_at};

verus! {

/// Encoding a concatenation encodes each part in turn.
pub proof fn lemma_encode_concat(a: Seq<char>, b: Seq<char>)
    ensures
        encode_utf8(a + b) == encode_utf8(a) + encode_utf8(b),
    decreases a.len(),
{
    if a.len() == 0 {
        assert(a + b =~= b);
    } else {
        lemma_encode_concat(a.drop_first(), b);
        assert((a + b).drop_first() =~= a.drop_first() + b);
        assert((a + b)[0] == a[0]);
    }
}

/// All bytes of `p` are ASCII.
pub open spec fn ascii_bytes(p: Seq<u8>) -> bool {
    forall|i: int| 0 <= i < p.len() ==> #[trigger] p[i] < 0x80
}

/// In valid UTF-8, a position next to an ASCII byte starts a character (or ends the text).
pub proof fn lemma_boundary_beside_ascii(bytes: Seq<u8>, i: int)
    requires
        valid_utf8(bytes),
        0 <= i <= bytes.len(),
        (i < bytes.len() && bytes[i] < 0x80) || (0 < i && bytes[i - 1] < 0x80),
    ensures
        is_char_boundary(bytes, i),
{
    if i == bytes.len() {
        is_char_boundary_start_end_of_seq(bytes);
    } else if bytes[i] < 0x80 {
        is_char_boundary_iff_not_is_continuation_byte(bytes, i);
    } else {
        is_char_boundary_iff_not_is_continuation_byte(bytes, i - 1);
        valid_utf8_split(bytes, i - 1);
        let tail = bytes.subrange(i - 1, bytes.len() as int);
        let rest = bytes.subrange(i, bytes.len() as int);
        assert(pop_first_scalar(tail) =~= rest);
        assert(valid_utf8(rest));
        is_char_boundary_iff_not_is_continuation_byte(rest, 0);
        is_char_boundary_iff_not_is_continuation_byte(bytes, i);
    }
}

/// The text of `s` between two character boundaries, given as byte offsets.
pub fn byte_slice<'a>(s: &'a str, from: usize, to: usize) -> (r: &'a str)
    requires
        from <= to <= s.spec_bytes().len(),
        is_char_boundary(s.spec_bytes(), from as int),
        is_char_boundary(s.spec_bytes(), to as int),
    ensures
        r.spec_bytes() == s.spec_bytes().subrange(from as int, to as int),
{
    proof {
        encode_utf8_valid_utf8(s@);
    }
    let (_, rest) = s.split_at(from);
    proof {
        let b = s.spec_bytes();
        let rb = rest.spec_bytes();
        encode_utf8_valid_utf8(rest@);
        if from < to && to < b.len() {
            is_char_boundary_iff_not_is_continuation_byte(b, to as int);
            is_char_boundary_iff_not_is_continuation_byte(rb, (to - from) as int);
        } else if from < to {
            is_char_boundary_start_end_of_seq(rb);
        }
    }
    let (mid, _) = rest.split_at(to - from);
    proof {
        assert(mid.spec_bytes() =~= s.spec_bytes().subrange(from as int, to as int));
    }
    mid
}

/// `data` with every occurrence of `pat` at or after `from` replaced by `rep`,
/// occurrences being taken left to right without overlap.
pub open spec fn replaced_from(data: Seq<u8>, pat: Seq<u8>, rep: Seq<u8>, from: nat) -> Seq<u8>
    decreases data.len() - from,
{
    if from >= data.len() {
        seq![]
    } else if pat.len() == 0 || from + pat.len() > data.len() {
        data.subrange(from as int, data.len() as int)
    } else if occurs_at(data, pat, from as int) {
        rep + replaced_from(data, pat, rep, from + pat.len())
    } else {
        seq![data[from as int]] + replaced_from(data, pat, rep, from + 1)
    }
}

/// `data` with every occurrence of `pat` replaced by `rep`, left to right without overlap.
pub open spec fn replaced(data: Seq<u8>, pat: Seq<u8>, rep: Seq<u8>) -> Seq<u8> {
    replaced_from(data, pat, rep, 0)
}

/// Whether `s` begins with `prefix`.
pub fn starts_with_bytes(s: &str, prefix: &str) -> (b: bool)
    ensures
        b == (prefix.spec_bytes().len() <= s.spec_bytes().len() && s.spec_bytes().subrange(
            0,
            prefix.spec_bytes().len() as int,
        ) == prefix.spec_bytes()),
{
    let data = s.as_bytes();
    let pat = prefix.as_bytes();
    if pat.len() > data.len() {
        return false;
    }
    matches_at(data, pat, 0)
}

/// `s` with every occurrence of the ASCII pattern `pat` replaced by `rep`.
pub fn replace_all(s: &str, pat: &str, rep: &str) -> (r: String)
    requires
        pat.spec_bytes().len() > 0,
        ascii_bytes(pat.spec_bytes()),
    ensures
        encode_utf8(r@) == replaced(s.spec_bytes(), pat.spec_bytes(), rep.spec_bytes()),
{
    let ghost data = s.spec_bytes();
    let ghost p = pat.spec_bytes();
    let ghost q = rep.spec_bytes();
    proof {
        encode_utf8_valid_utf8(s@);
    }
    let bytes = s.as_bytes();
    let pbytes = pat.as_bytes();
    let n: usize = bytes.len();
    let plen: usize = pbytes.len();
    let mut out = String::new();
    let mut copied: usize = 0;
    let mut i: usize = 0;
    assert(encode_utf8(out@) =~= Seq::<u8>::empty());
    assert(data.subrange(0, 0) =~= Seq::<u8>::empty());
    while i < n && plen <= n - i
        invariant
            data == s.spec_bytes(),
            valid_utf8(data),
            bytes@ == data,
            pbytes@ == p,
            p == pat.spec_bytes(),
            q == rep.spec_bytes(),
            n == data.len(),
            plen == p.len(),
            plen > 0,
            ascii_bytes(p),
            copied <= i <= n,
            is_char_boundary(data, copied as int),
            encode_utf8(out@) + data.subrange(copied as int, i as int) + replaced_from(data, p, q, i as nat)
                == replaced(data, p, q),
        decreases n - i,
    {
        if matches_at(bytes, pbytes, i) {
            proof {
                assert(data[i as int] == p[0]) by {
                    assert(data.subrange(i as int, i + plen)[0] == p[0]);
                }
                lemma_boundary_beside_ascii(data, i as int);
                assert(data[i + plen - 1] == p[plen - 1]) by {
                    assert(data.subrange(i as int, i + plen)[plen - 1] == p[plen - 1]);
                }
                lemma_boundary_beside_ascii(data, (i + plen) as int);
            }
            let piece = byte_slice(s, copied, i);
            let ghost mid = out@;
            out.append(piece);
            out.append(rep);
            proof {
                lemma_encode_concat(mid, piece@);
                lemma_encode_concat(mid + piece@, rep@);
                assert(out@ =~= mid + piece@ + rep@);
                assert(data.subrange((i + plen) as int, (i + plen) as int) =~= Seq::<u8>::empty());
                assert(encode_utf8(out@) + data.subrange((i + plen) as int, (i + plen) as int)
                    + replaced_from(data, p, q, (i + plen) as nat) =~= encode_utf8(mid)
                    + data.subrange(copied as int, i as int) + replaced_from(data, p, q, i as nat));
            }
            copied = i + plen;
            i = i + plen;
        } else {
            proof {
                assert(data.subrange(copied as int, i + 1) =~= data.subrange(copied as int, i as int)
                    + seq![data[i as int]]);
                assert(encode_utf8(out@) + data.subrange(copied as int, i + 1) + replaced_from(
                    data, p, q, (i + 1) as nat) =~= encode_utf8(out@) + data.subrange(copied as int, i as int)
                    + replaced_from(data, p, q, i as nat));
            }
            i = i + 1;
        }
    }
    proof {
        is_char_boundary_start_end_of_seq(data);
        if i < n {
            assert(replaced_from(data, p, q, i as nat) == data.subrange(i as int, n as int));
        } else {
            assert(replaced_from(data, p, q, i as nat) == Seq::<u8>::empty());
        }
        assert(data.subrange(copied as int, i as int) + replaced_from(data, p, q, i as nat)
            =~= data.subrange(copied as int, n as int));
    }
    let tail = byte_slice(s, copied, n);
    let ghost mid = out@;
    out.append(tail);
    proof {
        lemma_encode_concat(mid, tail@);
        assert(encode_utf8(out@) =~= encode_utf8(mid) + data.subrange(copied as int, n as int));
    }
    out
}

} // verus!
