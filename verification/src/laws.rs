//! The properties the filter is held to, stated and proved over the
//! same spec functions the executable contracts use.

use vstd::prelude::*;

use crate::classify::{keep_line, keep_pred, kept_lines};
use crate::pipeline::{data_lines, unlines};
use crate::text::{category_of, is_utf8, lemma_line_len_le, line_len, tokens};

verus! {

/// A filter keeps every element when the predicate holds of all of
/// them.
proof fn lemma_filter_all_true<A>(s: Seq<A>, p: spec_fn(A) -> bool)
    requires
        forall|i: int| 0 <= i < s.len() ==> p(#[trigger] s[i]),
    ensures
        s.filter(p) == s,
    decreases s.len(),
{
    reveal(Seq::filter);
    if s.len() > 0 {
        assert(forall|i: int| 0 <= i < s.drop_last().len() ==> #[trigger] s.drop_last()[i]
            == s[i]);
        lemma_filter_all_true(s.drop_last(), p);
        assert(s.filter(p) =~= s);
    }
}

/// A property that holds of every element of a sequence holds of every
/// element of any filtering of it.
proof fn lemma_filter_preserves_all<A>(s: Seq<A>, p: spec_fn(A) -> bool, q: spec_fn(A) -> bool)
    requires
        forall|i: int| 0 <= i < s.len() ==> q(#[trigger] s[i]),
    ensures
        forall|i: int| 0 <= i < s.filter(p).len() ==> q(#[trigger] s.filter(p)[i]),
    decreases s.len(),
{
    reveal(Seq::filter);
    if s.len() > 0 {
        assert(forall|i: int| 0 <= i < s.drop_last().len() ==> #[trigger] s.drop_last()[i]
            == s[i]);
        lemma_filter_preserves_all(s.drop_last(), p, q);
        let f = s.drop_last().filter(p);
        if p(s.last()) {
            assert(s.filter(p) == f.push(s.last()));
            assert(q(s[s.len() - 1]));
            assert forall|i: int| 0 <= i < s.filter(p).len() implies q(
                #[trigger] s.filter(p)[i],
            ) by {
                if i < f.len() {
                    assert(s.filter(p)[i] == f[i]);
                } else {
                    assert(s.filter(p)[i] == s.last());
                }
            }
        } else {
            assert(s.filter(p) == f);
        }
    }
}

/// Filtering with pointwise-equal predicates gives the same result.
proof fn lemma_filter_congruent<A>(s: Seq<A>, p: spec_fn(A) -> bool, q: spec_fn(A) -> bool)
    requires
        forall|i: int| 0 <= i < s.len() ==> p(#[trigger] s[i]) == q(s[i]),
    ensures
        s.filter(p) == s.filter(q),
    decreases s.len(),
{
    reveal(Seq::filter);
    if s.len() > 0 {
        assert(forall|i: int| 0 <= i < s.drop_last().len() ==> #[trigger] s.drop_last()[i]
            == s[i]);
        lemma_filter_congruent(s.drop_last(), p, q);
        assert(s.filter(p) =~= s.filter(q));
    }
}

/// Whether a line is structurally admissible for column `col`: it
/// decodes as UTF-8 and has a token at that column. These are the only
/// conditions besides keyword matching that decide a line's fate.
pub open spec fn line_ok(line: Seq<u8>, col: int) -> bool {
    is_utf8(line) && category_of(line, col) is Some
}

/// With an empty keyword set, filtering removes exactly the lines that
/// are not structurally admissible — undecodable or short lines — and
/// passes everything else through unchanged, in order.
pub proof fn lemma_empty_keywords(lines: Seq<Seq<u8>>, col: int)
    ensures
        kept_lines(lines, Seq::empty(), col) == lines.filter(|l: Seq<u8>| line_ok(l, col)),
{
    lemma_filter_congruent(lines, keep_pred(Seq::empty(), col), |l: Seq<u8>| line_ok(l, col));
}

/// Prefix semantics of the keep/drop decision, for a line whose
/// category token is `cat`: an exact keyword match drops the line; a
/// keyword that is a proper prefix of the token drops the line; and a
/// line is kept whenever no keyword is a prefix of the token, however
/// the keywords may occur elsewhere inside it.
pub proof fn lemma_prefix_semantics(line: Seq<u8>, keys: Seq<Seq<u8>>, col: int, cat: Seq<u8>)
    requires
        category_of(line, col) == Some(cat),
    ensures
        keys.contains(cat) ==> !keep_line(line, keys, col),
        (exists|k: int|
            0 <= k < keys.len() && (#[trigger] keys[k]).is_prefix_of(cat)) ==> !keep_line(
            line,
            keys,
            col,
        ),
        keep_line(line, keys, col) <==> is_utf8(line) && forall|k: int|
            0 <= k < keys.len() ==> !(#[trigger] keys[k]).is_prefix_of(cat),
{
    if keys.contains(cat) {
        let k = choose|k: int| 0 <= k < keys.len() && keys[k] == cat;
        assert(cat.take(cat.len() as int) =~= cat);
        assert(keys[k].is_prefix_of(cat));
    }
}

/// A line with fewer whitespace-delimited tokens than `col + 1` is
/// dropped, whatever the keywords hold.
pub proof fn lemma_short_line(line: Seq<u8>, keys: Seq<Seq<u8>>, col: int)
    requires
        tokens(line).len() <= col,
    ensures
        !keep_line(line, keys, col),
{
}

/// Whether `a` is a subsequence of `b`: `a` can be read off `b` by
/// deleting elements, keeping the remaining elements in their order.
/// Matching greedily from the back is equivalent to the existential
/// statement, and makes a usable induction scheme.
pub open spec fn subsequence_of(a: Seq<Seq<u8>>, b: Seq<Seq<u8>>) -> bool
    decreases b.len(),
{
    if a.len() == 0 {
        true
    } else if b.len() == 0 {
        false
    } else if a.last() == b.last() {
        subsequence_of(a.drop_last(), b.drop_last())
    } else {
        subsequence_of(a, b.drop_last())
    }
}

proof fn lemma_subsequence_drop(a: Seq<Seq<u8>>, b: Seq<Seq<u8>>)
    requires
        subsequence_of(a, b),
        a.len() > 0,
    ensures
        subsequence_of(a.drop_last(), b),
    decreases b.len(),
{
    if a.last() == b.last() {
        if a.drop_last().len() > 0 {
            if a.drop_last().last() == b.last() {
                lemma_subsequence_drop(a.drop_last(), b.drop_last());
            }
        }
    } else {
        if a.drop_last().len() > 0 {
            if a.drop_last().last() == b.last() {
                lemma_subsequence_drop(a, b.drop_last());
                lemma_subsequence_drop(a.drop_last(), b.drop_last());
            } else {
                lemma_subsequence_drop(a, b.drop_last());
            }
        }
    }
}

proof fn lemma_filter_subsequence(s: Seq<Seq<u8>>, p: spec_fn(Seq<u8>) -> bool)
    ensures
        subsequence_of(s.filter(p), s),
    decreases s.len(),
{
    reveal(Seq::filter);
    if s.len() > 0 {
        lemma_filter_subsequence(s.drop_last(), p);
        let f = s.filter(p);
        let g = s.drop_last().filter(p);
        if p(s.last()) {
            assert(f == g.push(s.last()));
            assert(f.drop_last() =~= g);
        } else {
            assert(f == g);
            if f.len() > 0 {
                if f.last() == s.last() {
                    lemma_subsequence_drop(g, s.drop_last());
                }
            }
        }
    }
}

/// A subsequence embeds into its supersequence at strictly increasing
/// positions: the witness map sends each element of `a` to a position
/// of `b` holding it, in increasing order.
pub proof fn lemma_subsequence_embedding(a: Seq<Seq<u8>>, b: Seq<Seq<u8>>) -> (f: Seq<int>)
    requires
        subsequence_of(a, b),
    ensures
        f.len() == a.len(),
        forall|i: int| 0 <= i < f.len() ==> 0 <= #[trigger] f[i] < b.len() && a[i] == b[f[i]],
        forall|i: int, j: int| 0 <= i < j < f.len() ==> f[i] < f[j],
    decreases b.len(),
{
    if a.len() == 0 {
        Seq::empty()
    } else if a.last() == b.last() {
        let f0 = lemma_subsequence_embedding(a.drop_last(), b.drop_last());
        let f = f0.push(b.len() - 1);
        assert(forall|i: int| 0 <= i < a.drop_last().len() ==> #[trigger] a.drop_last()[i]
            == a[i]);
        assert(forall|i: int| 0 <= i < b.drop_last().len() ==> #[trigger] b.drop_last()[i]
            == b[i]);
        assert(forall|i: int| 0 <= i < f0.len() ==> #[trigger] f[i] == f0[i]);
        f
    } else {
        let f = lemma_subsequence_embedding(a, b.drop_last());
        assert(forall|i: int| 0 <= i < b.drop_last().len() ==> #[trigger] b.drop_last()[i]
            == b[i]);
        f
    }
}

/// Order preservation: the kept lines stand in the output in the order
/// they stood in the input — the output is a subsequence of the input,
/// so it reads off the input at strictly increasing positions (see
/// [`lemma_subsequence_embedding`]).
pub proof fn lemma_order_preserved(lines: Seq<Seq<u8>>, keys: Seq<Seq<u8>>, col: int)
    ensures
        subsequence_of(kept_lines(lines, keys, col), lines),
{
    lemma_filter_subsequence(lines, keep_pred(keys, col));
}

/// Filtering works segment by segment: what a run keeps of two
/// concatenated inputs is what it keeps of the first followed by what
/// it keeps of the second.
pub proof fn lemma_filter_splits(a: Seq<Seq<u8>>, b: Seq<Seq<u8>>, keys: Seq<Seq<u8>>, col: int)
    ensures
        kept_lines(a + b, keys, col) == kept_lines(a, keys, col) + kept_lines(b, keys, col),
{
    Seq::filter_distributes_over_add(a, b, keep_pred(keys, col));
}

proof fn lemma_line_len_no_line_feed(s: Seq<u8>)
    ensures
        forall|k: int| 0 <= k < line_len(s) ==> s[k] != 0x0a,
    decreases s.len(),
{
    if s.len() > 0 && s[0] != 0x0a {
        lemma_line_len_no_line_feed(s.skip(1));
        lemma_line_len_le(s.skip(1));
        assert forall|k: int| 0 <= k < line_len(s) implies s[k] != 0x0a by {
            if k > 0 {
                assert(0 <= k - 1 < line_len(s.skip(1)));
                assert(s.skip(1)[k - 1] == s[k]);
            }
        }
    }
}

proof fn lemma_data_lines_no_line_feed(s: Seq<u8>)
    ensures
        forall|i: int| 0 <= i < data_lines(s).len() ==> !(#[trigger] data_lines(s)[i]).contains(
            0x0au8,
        ),
    decreases s.len(),
{
    if s.len() > 0 {
        let j = line_len(s) as int;
        lemma_line_len_le(s);
        lemma_line_len_no_line_feed(s);
        assert(!s.take(j).contains(0x0au8)) by {
            if s.take(j).contains(0x0au8) {
                let k = choose|k: int| 0 <= k < s.take(j).len() && s.take(j)[k] == 0x0a;
                assert(s[k] == 0x0a);
            }
        }
        if j < s.len() {
            lemma_data_lines_no_line_feed(s.skip(j + 1));
            assert forall|i: int| 0 <= i < data_lines(s).len() implies !(#[trigger] data_lines(
                s,
            )[i]).contains(0x0au8) by {
                if i == 0 {
                    assert(data_lines(s)[0] == s.take(j));
                } else {
                    assert(data_lines(s)[i] == data_lines(s.skip(j + 1))[i - 1]);
                }
            }
        } else {
            assert(data_lines(s)[0] == s.take(j));
        }
    }
}

proof fn lemma_line_len_of_record(a: Seq<u8>, rest: Seq<u8>)
    requires
        !a.contains(0x0au8),
    ensures
        line_len(a + seq![0x0au8] + rest) == a.len(),
    decreases a.len(),
{
    let u = a + seq![0x0au8] + rest;
    if a.len() == 0 {
        assert(u[0] == 0x0a);
    } else {
        assert(u[0] == a[0]);
        assert(a[0] != 0x0a);
        assert(!a.skip(1).contains(0x0au8)) by {
            if a.skip(1).contains(0x0au8) {
                let k = choose|k: int| 0 <= k < a.skip(1).len() && a.skip(1)[k] == 0x0a;
                assert(a[k + 1] == 0x0a);
            }
        }
        lemma_line_len_of_record(a.skip(1), rest);
        assert(u.skip(1) =~= a.skip(1) + seq![0x0au8] + rest);
    }
}

/// Splitting joined records recovers the records, as long as no record
/// holds a line feed of its own — true of every record that splitting
/// produced.
proof fn lemma_data_lines_of_unlines(ls: Seq<Seq<u8>>)
    requires
        forall|i: int| 0 <= i < ls.len() ==> !(#[trigger] ls[i]).contains(0x0au8),
    ensures
        data_lines(unlines(ls)) == ls,
    decreases ls.len(),
{
    if ls.len() > 0 {
        let u = ls[0] + seq![0x0au8] + unlines(ls.skip(1));
        assert(unlines(ls) == u);
        lemma_line_len_of_record(ls[0], unlines(ls.skip(1)));
        let j = ls[0].len() as int;
        assert(u.len() > j);
        assert(u.take(j) =~= ls[0]);
        assert(u.skip(j + 1) =~= unlines(ls.skip(1)));
        assert(forall|i: int| 0 <= i < ls.skip(1).len() ==> #[trigger] ls.skip(1)[i] == ls[i
            + 1]);
        lemma_data_lines_of_unlines(ls.skip(1));
        assert(data_lines(u) =~= ls);
    }
}

/// Idempotence: filtering the output of a successful run again, with
/// the same keyword set and the same column, reproduces that output
/// byte for byte — no kept line becomes droppable on a second pass.
pub proof fn lemma_refilter_identity(input: Seq<u8>, keys: Seq<Seq<u8>>, col: int)
    ensures
        ({
            let once = unlines(kept_lines(data_lines(input), keys, col));
            unlines(kept_lines(data_lines(once), keys, col)) == once
        }),
{
    let lines = data_lines(input);
    let pred = keep_pred(keys, col);
    let kept = kept_lines(lines, keys, col);
    lemma_data_lines_no_line_feed(input);
    lemma_filter_preserves_all(lines, pred, |l: Seq<u8>| !l.contains(0x0au8));
    lemma_data_lines_of_unlines(kept);
    assert forall|i: int| 0 <= i < kept.len() implies pred(#[trigger] kept[i]) by {
        lines.lemma_filter_pred(pred, i);
    }
    lemma_filter_all_true(kept, pred);
}

} // verus!
