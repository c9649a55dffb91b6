//! The keep/drop decision: a line is kept exactly when it is valid
//! UTF-8, has a token at the configured column, and no keyword is a
//! byte-for-byte prefix of that token.

use vstd::prelude::*;

use crate::text::{category_of, category_token, is_utf8, utf8_valid};

verus! {

/// Whether the line record `line` survives filtering against the
/// keywords `keys` with category column `col`: the line must be valid
/// UTF-8, must have a token at zero-based column `col`, and that token
/// must not start with any keyword.
pub open spec fn keep_line(line: Seq<u8>, keys: Seq<Seq<u8>>, col: int) -> bool {
    match category_of(line, col) {
        Some(cat) => is_utf8(line) && forall|k: int|
            0 <= k < keys.len() ==> !(#[trigger] keys[k]).is_prefix_of(cat),
        None => false,
    }
}

/// Whether `key` is a byte-for-byte prefix of `cat`.
pub fn starts_with_key(cat: &Vec<u8>, key: &Vec<u8>) -> (r: bool)
    ensures
        r == key@.is_prefix_of(cat@),
{
    let m = key.len();
    if m > cat.len() {
        return false;
    }
    let mut k: usize = 0;
    while k < m
        invariant
            k <= m,
            m == key@.len(),
            m <= cat@.len(),
            forall|j: int| 0 <= j < k ==> key@[j] == cat@[j],
        decreases m - k,
    {
        if key[k] != cat[k] {
            proof {
                assert(cat@.subrange(0, m as int)[k as int] == cat@[k as int]);
            }
            return false;
        }
        k = k + 1;
    }
    proof {
        assert(key@ =~= cat@.subrange(0, m as int));
    }
    true
}

/// Decides [`keep_line`]: the single per-line filtering step. Streaming
/// callers feed each scanned line record (line boundary stripped)
/// through this function and write the record back out when it returns
/// true.
pub fn classify_line(line: &Vec<u8>, keys: &Vec<Vec<u8>>, col: usize) -> (keep: bool)
    ensures
        keep == keep_line(line@, keys.deep_view(), col as int),
{
    if !utf8_valid(line) {
        return false;
    }
    let cat = match category_token(line, col) {
        Some(c) => c,
        None => {
            return false;
        },
    };
    let m = keys.len();
    let mut k: usize = 0;
    while k < m
        invariant
            k <= m,
            m == keys@.len(),
            category_of(line@, col as int) == Some(cat@),
            forall|j: int| 0 <= j < k ==> !(#[trigger] keys.deep_view()[j]).is_prefix_of(cat@),
        decreases m - k,
    {
        if starts_with_key(&cat, &keys[k]) {
            proof {
                assert(keys.deep_view()[k as int] == keys@[k as int]@);
            }
            return false;
        }
        proof {
            assert(keys.deep_view()[k as int] == keys@[k as int]@);
        }
        k = k + 1;
    }
    true
}

/// The per-line predicate of a filtering run, as a function value.
pub open spec fn keep_pred(keys: Seq<Seq<u8>>, col: int) -> spec_fn(Seq<u8>) -> bool {
    |l: Seq<u8>| keep_line(l, keys, col)
}

/// The lines of `lines` that survive filtering, in input order.
pub open spec fn kept_lines(lines: Seq<Seq<u8>>, keys: Seq<Seq<u8>>, col: int) -> Seq<Seq<u8>> {
    lines.filter(keep_pred(keys, col))
}

proof fn lemma_filter_push(s: Seq<Seq<u8>>, x: Seq<u8>, pred: spec_fn(Seq<u8>) -> bool)
    ensures
        s.push(x).filter(pred) == if pred(x) {
            s.filter(pred).push(x)
        } else {
            s.filter(pred)
        },
{
    reveal(Seq::filter);
    assert(s.push(x).drop_last() =~= s);
    assert(s.push(x).last() == x);
}

/// Filters a batch of line records: the result holds exactly the lines
/// `classify_line` keeps, in their input order.
pub fn filter_lines(lines: &Vec<Vec<u8>>, keys: &Vec<Vec<u8>>, col: usize) -> (r: Vec<Vec<u8>>)
    ensures
        r.deep_view() == kept_lines(lines.deep_view(), keys.deep_view(), col as int),
{
    let ghost pred = keep_pred(keys.deep_view(), col as int);
    let n = lines.len();
    let mut out: Vec<Vec<u8>> = Vec::new();
    proof {
        reveal(Seq::filter);
        assert(lines.deep_view().take(0) =~= Seq::<Seq<u8>>::empty());
        assert(out.deep_view() =~= Seq::<Seq<u8>>::empty().filter(pred));
    }
    let mut i: usize = 0;
    while i < n
        invariant
            i <= n,
            n == lines@.len(),
            out.deep_view() == lines.deep_view().take(i as int).filter(
                keep_pred(keys.deep_view(), col as int),
            ),
        decreases n - i,
    {
        let keep = classify_line(&lines[i], keys, col);
        let ghost pred = keep_pred(keys.deep_view(), col as int);
        proof {
            assert(lines.deep_view().take(i + 1) =~= lines.deep_view().take(i as int).push(
                lines.deep_view()[i as int],
            ));
            lemma_filter_push(lines.deep_view().take(i as int), lines.deep_view()[i as int], pred);
            assert(lines.deep_view()[i as int] == lines@[i as int]@);
        }
        if keep {
            let line = &lines[i];
            let mut copy: Vec<u8> = Vec::new();
            let mut k: usize = 0;
            while k < line.len()
                invariant
                    k <= line@.len(),
                    copy@ =~= line@.subrange(0, k as int),
                decreases line@.len() - k,
            {
                copy.push(line[k]);
                k = k + 1;
            }
            proof {
                assert(copy@ =~= line@);
            }
            out.push(copy);
            proof {
                assert(out.deep_view() =~= lines.deep_view().take(i + 1).filter(pred));
            }
        } else {
            proof {
                assert(out.deep_view() =~= lines.deep_view().take(i + 1).filter(pred));
            }
        }
        i = i + 1;
    }
    proof {
        assert(lines.deep_view().take(n as int) =~= lines.deep_view());
    }
    out
}

} // verus!
