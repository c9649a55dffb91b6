//! Loading the keyword set: the contents of the keywords file, split
//! into lines, become the keyword tokens. A keywords file that is not
//! well-formed UTF-8 is rejected as a whole.

use vstd::prelude::*;

use crate::text::{is_utf8, lemma_line_len_le, line_len, utf8_valid};

verus! {

/// Strips one trailing carriage return, so that a CRLF-delimited
/// keywords file yields the same keywords as an LF-delimited one.
pub open spec fn strip_cr(p: Seq<u8>) -> Seq<u8> {
    if p.len() > 0 && p.last() == 0x0d {
        p.drop_last()
    } else {
        p
    }
}

/// The keyword tokens held in keyword-file contents `s`: the pieces
/// between line feeds, each with one trailing carriage return removed,
/// in file order. A trailing line boundary does not produce an empty
/// final keyword; an empty file holds no keywords.
pub open spec fn keyword_lines(s: Seq<u8>) -> Seq<Seq<u8>>
    decreases s.len(),
    via keyword_lines_decreases
{
    if s.len() == 0 {
        Seq::empty()
    } else {
        let j = line_len(s) as int;
        let piece = strip_cr(s.take(j));
        if j == s.len() {
            seq![piece]
        } else {
            seq![piece] + keyword_lines(s.skip(j + 1))
        }
    }
}

#[via_fn]
proof fn keyword_lines_decreases(s: Seq<u8>) {
    lemma_line_len_le(s);
}

/// Whether keyword-file contents decode: every keyword line must be
/// well-formed UTF-8.
pub open spec fn keywords_ok(s: Seq<u8>) -> bool {
    forall|i: int| 0 <= i < keyword_lines(s).len() ==> is_utf8(#[trigger] keyword_lines(s)[i])
}

/// Parses the raw contents of a keywords file into the keyword set.
/// Returns `None` exactly when some keyword line is not well-formed
/// UTF-8; otherwise the keywords, in file order.
pub fn parse_keywords(bytes: &Vec<u8>) -> (r: Option<Vec<Vec<u8>>>)
    ensures
        r is Some <==> keywords_ok(bytes@),
        match r {
            Some(keys) => keys.deep_view() == keyword_lines(bytes@),
            None => !keywords_ok(bytes@),
        },
{
    let n = bytes.len();
    let mut out: Vec<Vec<u8>> = Vec::new();
    let mut i: usize = 0;
    proof {
        assert(bytes@.skip(0) =~= bytes@);
        assert(out.deep_view() =~= Seq::<Seq<u8>>::empty());
    }
    while i < n
        invariant
            i <= n,
            n == bytes@.len(),
            keyword_lines(bytes@) =~= out.deep_view() + keyword_lines(bytes@.skip(i as int)),
            forall|j: int| 0 <= j < out.deep_view().len() ==> is_utf8(
                #[trigger] out.deep_view()[j],
            ),
        decreases n - i,
    {
        let ghost suffix = bytes@.skip(i as int);
        // Scan to the end of the current line.
        let mut j: usize = i;
        while j < n && bytes[j] != 0x0a
            invariant
                i <= j <= n,
                n == bytes@.len(),
                suffix == bytes@.skip(i as int),
                line_len(suffix) == j - i + line_len(bytes@.skip(j as int)),
            decreases n - j,
        {
            proof {
                assert(bytes@.skip(j as int)[0] == bytes@[j as int]);
                assert(bytes@.skip(j as int).skip(1) =~= bytes@.skip(j + 1));
            }
            j = j + 1;
        }
        proof {
            if j < n {
                assert(bytes@.skip(j as int)[0] == bytes@[j as int]);
            }
            assert(line_len(bytes@.skip(j as int)) == 0);
            assert(line_len(suffix) == j - i);
        }
        // Copy the line, leaving out one trailing carriage return.
        let end: usize = if j > i && bytes[j - 1] == 0x0d {
            j - 1
        } else {
            j
        };
        let mut piece: Vec<u8> = Vec::new();
        let mut k: usize = i;
        while k < end
            invariant
                i <= k <= end <= n,
                n == bytes@.len(),
                piece@ =~= bytes@.subrange(i as int, k as int),
            decreases end - k,
        {
            piece.push(bytes[k]);
            k = k + 1;
        }
        proof {
            assert(suffix.take((j - i) as int) =~= bytes@.subrange(i as int, j as int));
            if end < j {
                assert(bytes@.subrange(i as int, j as int).last() == bytes@[j - 1]);
                assert(piece@ =~= bytes@.subrange(i as int, j as int).drop_last());
            }
            assert(piece@ == strip_cr(suffix.take((j - i) as int)));
            assert(keyword_lines(suffix)[0] == piece@);
        }
        if !utf8_valid(&piece) {
            proof {
                let ghost idx = out.deep_view().len() as int;
                assert(keyword_lines(bytes@)[idx] == piece@);
            }
            return None;
        }
        let ghost prev = out.deep_view();
        out.push(piece);
        proof {
            assert(out.deep_view() =~~= prev.push(piece@));
        }
        if j < n {
            proof {
                assert(suffix.skip((j - i) + 1) =~= bytes@.skip(j + 1));
                assert(keyword_lines(bytes@) =~= out.deep_view() + keyword_lines(
                    bytes@.skip(j + 1),
                ));
            }
            i = j + 1;
        } else {
            proof {
                assert(bytes@.skip(n as int) =~= Seq::<u8>::empty());
                assert(keyword_lines(bytes@) =~= out.deep_view() + keyword_lines(
                    bytes@.skip(n as int),
                ));
            }
            i = n;
        }
    }
    proof {
        assert(bytes@.skip(n as int) =~= Seq::<u8>::empty());
        assert(keyword_lines(bytes@) =~= out.deep_view());
    }
    Some(out)
}

} // verus!
