//! The whole filtering run on in-memory contents: split the input into
//! line records, filter them, and join the survivors with a line feed
//! after each. A streaming caller gets the identical result by feeding
//! each scanned record through `classify_line` and writing the kept
//! records back with their line boundary restored.

use vstd::prelude::*;

use crate::classify::{filter_lines, kept_lines};
use crate::keywords::{keyword_lines, keywords_ok, parse_keywords};
use crate::text::{lemma_line_len_le, line_len};

verus! {

/// The line records of log contents `s`: the pieces between line
/// feeds, in order. The boundary itself is excluded; nothing else is
/// stripped, so a CRLF boundary leaves the carriage return on its
/// record. A trailing line feed does not produce an empty final
/// record.
pub open spec fn data_lines(s: Seq<u8>) -> Seq<Seq<u8>>
    decreases s.len(),
    via data_lines_decreases
{
    if s.len() == 0 {
        Seq::empty()
    } else {
        let j = line_len(s) as int;
        if j == s.len() {
            seq![s.take(j)]
        } else {
            seq![s.take(j)] + data_lines(s.skip(j + 1))
        }
    }
}

#[via_fn]
proof fn data_lines_decreases(s: Seq<u8>) {
    lemma_line_len_le(s);
}

/// The inverse of line splitting: the records joined back, with a line
/// feed after each.
pub open spec fn unlines(ls: Seq<Seq<u8>>) -> Seq<u8>
    decreases ls.len(),
{
    if ls.len() == 0 {
        Seq::empty()
    } else {
        ls[0] + seq![0x0au8] + unlines(ls.skip(1))
    }
}

/// Splits log contents into their line records.
pub fn split_data_lines(bytes: &Vec<u8>) -> (r: Vec<Vec<u8>>)
    ensures
        r.deep_view() == data_lines(bytes@),
{
    let n = bytes.len();
    let mut out: Vec<Vec<u8>> = Vec::new();
    let mut i: usize = 0;
    proof {
        assert(bytes@.skip(0) =~= bytes@);
        assert(out.deep_view() =~= Seq::<Seq<u8>>::empty());
    }
    while i < n
        invariant
            i <= n,
            n == bytes@.len(),
            data_lines(bytes@) =~= out.deep_view() + data_lines(bytes@.skip(i as int)),
        decreases n - i,
    {
        let ghost suffix = bytes@.skip(i as int);
        let mut j: usize = i;
        while j < n && bytes[j] != 0x0a
            invariant
                i <= j <= n,
                n == bytes@.len(),
                suffix == bytes@.skip(i as int),
                line_len(suffix) == j - i + line_len(bytes@.skip(j as int)),
            decreases n - j,
        {
            proof {
                assert(bytes@.skip(j as int)[0] == bytes@[j as int]);
                assert(bytes@.skip(j as int).skip(1) =~= bytes@.skip(j + 1));
            }
            j = j + 1;
        }
        proof {
            if j < n {
                assert(bytes@.skip(j as int)[0] == bytes@[j as int]);
            }
            assert(line_len(bytes@.skip(j as int)) == 0);
            assert(line_len(suffix) == j - i);
        }
        let mut piece: Vec<u8> = Vec::new();
        let mut k: usize = i;
        while k < j
            invariant
                i <= k <= j <= n,
                n == bytes@.len(),
                piece@ =~= bytes@.subrange(i as int, k as int),
            decreases j - k,
        {
            piece.push(bytes[k]);
            k = k + 1;
        }
        proof {
            assert(piece@ =~= suffix.take((j - i) as int));
            assert(data_lines(suffix)[0] == piece@);
        }
        let ghost prev = out.deep_view();
        out.push(piece);
        proof {
            assert(out.deep_view() =~~= prev.push(piece@));
        }
        if j < n {
            proof {
                assert(suffix.skip((j - i) + 1) =~= bytes@.skip(j + 1));
                assert(data_lines(bytes@) =~= out.deep_view() + data_lines(bytes@.skip(j + 1)));
            }
            i = j + 1;
        } else {
            proof {
                assert(bytes@.skip(n as int) =~= Seq::<u8>::empty());
                assert(data_lines(bytes@) =~= out.deep_view() + data_lines(bytes@.skip(n as int)));
            }
            i = n;
        }
    }
    proof {
        assert(bytes@.skip(n as int) =~= Seq::<u8>::empty());
        assert(data_lines(bytes@) =~= out.deep_view());
    }
    out
}

/// Joins line records into output contents, restoring the line feed
/// that splitting stripped after each record.
pub fn render_lines(lines: &Vec<Vec<u8>>) -> (r: Vec<u8>)
    ensures
        r@ == unlines(lines.deep_view()),
{
    let n = lines.len();
    let mut out: Vec<u8> = Vec::new();
    let mut i: usize = 0;
    proof {
        assert(lines.deep_view().skip(0) =~= lines.deep_view());
        assert(out@ =~= Seq::<u8>::empty());
        assert(unlines(lines.deep_view()) =~= out@ + unlines(lines.deep_view().skip(0)));
    }
    while i < n
        invariant
            i <= n,
            n == lines@.len(),
            unlines(lines.deep_view()) == out@ + unlines(lines.deep_view().skip(i as int)),
        decreases n - i,
    {
        let line = &lines[i];
        let ghost before = out@;
        let mut k: usize = 0;
        while k < line.len()
            invariant
                k <= line@.len(),
                out@ =~= before + line@.subrange(0, k as int),
            decreases line@.len() - k,
        {
            out.push(line[k]);
            k = k + 1;
        }
        out.push(0x0a);
        proof {
            assert(lines.deep_view().skip(i as int)[0] == lines@[i as int]@);
            assert(lines.deep_view().skip(i as int).skip(1) =~= lines.deep_view().skip(i + 1));
            assert(out@ =~= before + lines@[i as int]@ + seq![0x0au8]);
            assert(unlines(lines.deep_view()) =~= out@ + unlines(lines.deep_view().skip(i + 1)));
        }
        i = i + 1;
    }
    proof {
        assert(unlines(lines.deep_view().skip(n as int)) =~= Seq::<u8>::empty());
        assert(unlines(lines.deep_view()) =~= out@);
    }
    out
}

/// One whole filtering run on in-memory contents: load the keyword set
/// from `keyword_bytes`, split `input` into line records, keep exactly
/// the records `classify_line` keeps, and join them with their line
/// boundaries restored. Returns `None` exactly when the keywords file
/// does not decode as UTF-8.
pub fn trim_content(input: &Vec<u8>, keyword_bytes: &Vec<u8>, col: usize) -> (r: Option<Vec<u8>>)
    ensures
        r is Some <==> keywords_ok(keyword_bytes@),
        match r {
            Some(out) => out@ == unlines(
                kept_lines(data_lines(input@), keyword_lines(keyword_bytes@), col as int),
            ),
            None => !keywords_ok(keyword_bytes@),
        },
{
    let keys = match parse_keywords(keyword_bytes) {
        Some(keys) => keys,
        None => {
            return None;
        },
    };
    let lines = split_data_lines(input);
    let kept = filter_lines(&lines, &keys, col);
    Some(render_lines(&kept))
}

} // verus!
