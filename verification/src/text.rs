//! The byte-level text model: ASCII whitespace, UTF-8 validity, and
//! splitting a line into whitespace-delimited tokens.

use vstd::prelude::*;

verus! {

/// The ASCII whitespace bytes: the space, and the controls tab, line
/// feed, vertical tab, form feed and carriage return. Tokens of a line
/// are the maximal runs of non-whitespace bytes between these.
pub open spec fn is_ws(b: u8) -> bool {
    b == 0x20 || (0x09 <= b && b <= 0x0d)
}

/// Executable mirror of [`is_ws`].
pub fn is_ws_byte(b: u8) -> (r: bool)
    ensures
        r == is_ws(b),
{
    b == 0x20 || (0x09 <= b && b <= 0x0d)
}

/// A UTF-8 continuation byte.
pub open spec fn is_cont(b: u8) -> bool {
    0x80 <= b && b <= 0xbf
}

/// Whether `s` is a well-formed UTF-8 byte sequence, following the
/// byte-range table of the Unicode standard: overlong encodings,
/// surrogate code points and values above U+10FFFF are excluded.
pub open spec fn is_utf8(s: Seq<u8>) -> bool
    decreases s.len(),
{
    if s.len() == 0 {
        true
    } else {
        let b0 = s[0];
        if b0 < 0x80 {
            is_utf8(s.skip(1))
        } else if 0xc2 <= b0 && b0 <= 0xdf {
            s.len() >= 2 && is_cont(s[1]) && is_utf8(s.skip(2))
        } else if b0 == 0xe0 {
            s.len() >= 3 && 0xa0 <= s[1] && s[1] <= 0xbf && is_cont(s[2]) && is_utf8(s.skip(3))
        } else if b0 == 0xed {
            s.len() >= 3 && 0x80 <= s[1] && s[1] <= 0x9f && is_cont(s[2]) && is_utf8(s.skip(3))
        } else if (0xe1 <= b0 && b0 <= 0xec) || b0 == 0xee || b0 == 0xef {
            s.len() >= 3 && is_cont(s[1]) && is_cont(s[2]) && is_utf8(s.skip(3))
        } else if b0 == 0xf0 {
            s.len() >= 4 && 0x90 <= s[1] && s[1] <= 0xbf && is_cont(s[2]) && is_cont(s[3])
                && is_utf8(s.skip(4))
        } else if 0xf1 <= b0 && b0 <= 0xf3 {
            s.len() >= 4 && is_cont(s[1]) && is_cont(s[2]) && is_cont(s[3]) && is_utf8(s.skip(4))
        } else if b0 == 0xf4 {
            s.len() >= 4 && 0x80 <= s[1] && s[1] <= 0x8f && is_cont(s[2]) && is_cont(s[3])
                && is_utf8(s.skip(4))
        } else {
            false
        }
    }
}

/// Decides [`is_utf8`] on a byte vector.
pub fn utf8_valid(s: &Vec<u8>) -> (r: bool)
    ensures
        r == is_utf8(s@),
{
    let n = s.len();
    let mut i: usize = 0;
    proof {
        assert(s@.skip(0) =~= s@);
    }
    while i < n
        invariant
            i <= n,
            n == s@.len(),
            is_utf8(s@) == is_utf8(s@.skip(i as int)),
        decreases n - i,
    {
        proof {
            assert(s@.skip(i as int)[0] == s@[i as int]);
            assert(s@.skip(i as int).len() == n - i);
        }
        let b0 = s[i];
        let width: usize = if b0 < 0x80 {
            1
        } else if 0xc2 <= b0 && b0 <= 0xdf {
            2
        } else if 0xe0 <= b0 && b0 <= 0xef {
            3
        } else if 0xf0 <= b0 && b0 <= 0xf4 {
            4
        } else {
            return false;
        };
        if n - i < width {
            return false;
        }
        proof {
            if width >= 2 {
                assert(s@.skip(i as int)[1] == s@[i + 1]);
            }
            if width >= 3 {
                assert(s@.skip(i as int)[2] == s@[i + 2]);
            }
            if width >= 4 {
                assert(s@.skip(i as int)[3] == s@[i + 3]);
            }
        }
        if width >= 2 {
            let b1 = s[i + 1];
            let lo: u8 = if b0 == 0xe0 {
                0xa0
            } else if b0 == 0xf0 {
                0x90
            } else {
                0x80
            };
            let hi: u8 = if b0 == 0xed {
                0x9f
            } else if b0 == 0xf4 {
                0x8f
            } else {
                0xbf
            };
            if !(lo <= b1 && b1 <= hi) {
                return false;
            }
        }
        if width >= 3 {
            let b2 = s[i + 2];
            if !(0x80 <= b2 && b2 <= 0xbf) {
                return false;
            }
        }
        if width >= 4 {
            let b3 = s[i + 3];
            if !(0x80 <= b3 && b3 <= 0xbf) {
                return false;
            }
        }
        proof {
            assert(s@.skip(i as int).skip(width as int) =~= s@.skip(i + width));
        }
        i = i + width;
    }
    proof {
        assert(s@.skip(n as int) =~= Seq::<u8>::empty());
    }
    true
}

/// Number of bytes before the first line feed of `s` (all of `s` when
/// it has none): the length of the first line record of `s`.
pub open spec fn line_len(s: Seq<u8>) -> nat
    decreases s.len(),
{
    if s.len() == 0 || s[0] == 0x0a {
        0
    } else {
        1 + line_len(s.skip(1))
    }
}

/// A line record never extends past the end of the contents.
pub proof fn lemma_line_len_le(s: Seq<u8>)
    ensures
        line_len(s) <= s.len(),
    decreases s.len(),
{
    if s.len() > 0 && s[0] != 0x0a {
        lemma_line_len_le(s.skip(1));
    }
}

/// Length of the leading run of non-whitespace bytes of `s`: the length
/// of the token that starts at the head of `s`, when the head is not
/// whitespace.
pub open spec fn head_token_len(s: Seq<u8>) -> nat
    decreases s.len(),
{
    if s.len() == 0 || is_ws(s[0]) {
        0
    } else {
        1 + head_token_len(s.skip(1))
    }
}

/// A token never extends past the end of its line.
pub proof fn lemma_head_token_len_le(s: Seq<u8>)
    ensures
        head_token_len(s) <= s.len(),
    decreases s.len(),
{
    if s.len() > 0 && !is_ws(s[0]) {
        lemma_head_token_len_le(s.skip(1));
    }
}

/// The whitespace-delimited tokens of `s`, in order: the maximal runs
/// of non-whitespace bytes.
pub open spec fn tokens(s: Seq<u8>) -> Seq<Seq<u8>>
    decreases s.len(),
    via tokens_decreases
{
    if s.len() == 0 {
        Seq::empty()
    } else if is_ws(s[0]) {
        tokens(s.skip(1))
    } else {
        seq![s.take(head_token_len(s) as int)] + tokens(s.skip(head_token_len(s) as int))
    }
}

#[via_fn]
proof fn tokens_decreases(s: Seq<u8>) {
    if s.len() > 0 && !is_ws(s[0]) {
        lemma_head_token_len_le(s);
    }
}

/// The category of a line for column `col`: its `col`-th token
/// (zero-based), or nothing when the line has too few tokens.
pub open spec fn category_of(line: Seq<u8>, col: int) -> Option<Seq<u8>> {
    if 0 <= col < tokens(line).len() {
        Some(tokens(line)[col])
    } else {
        None
    }
}

/// Extracts the token of `line` at zero-based column `col`, or `None`
/// when the line has fewer than `col + 1` tokens.
pub fn category_token(line: &Vec<u8>, col: usize) -> (r: Option<Vec<u8>>)
    ensures
        match r {
            Some(t) => category_of(line@, col as int) == Some(t@),
            None => category_of(line@, col as int) is None,
        },
{
    let n = line.len();
    let mut i: usize = 0;
    let mut idx: usize = 0;
    proof {
        assert(line@.skip(0) =~= line@);
        assert(tokens(line@).skip(0) =~= tokens(line@));
    }
    while i < n
        invariant
            i <= n,
            idx <= col,
            n == line@.len(),
            idx + tokens(line@.skip(i as int)).len() == tokens(line@).len(),
            tokens(line@.skip(i as int)) =~= tokens(line@).skip(idx as int),
        decreases n - i,
    {
        proof {
            assert(line@.skip(i as int)[0] == line@[i as int]);
        }
        if is_ws_byte(line[i]) {
            proof {
                assert(line@.skip(i as int).skip(1) =~= line@.skip(i + 1));
            }
            i = i + 1;
        } else {
            // Scan to the end of the token that starts at `i`.
            let ghost suffix = line@.skip(i as int);
            let mut j: usize = i;
            while j < n && !is_ws_byte(line[j])
                invariant
                    i <= j <= n,
                    n == line@.len(),
                    suffix == line@.skip(i as int),
                    head_token_len(suffix) == j - i + head_token_len(line@.skip(j as int)),
                decreases n - j,
            {
                proof {
                    assert(line@.skip(j as int)[0] == line@[j as int]);
                    assert(line@.skip(j as int).skip(1) =~= line@.skip(j + 1));
                }
                j = j + 1;
            }
            proof {
                if j < n {
                    assert(line@.skip(j as int)[0] == line@[j as int]);
                }
                assert(head_token_len(line@.skip(j as int)) == 0);
                assert(head_token_len(suffix) == j - i);
            }
            if idx == col {
                // This token is the requested category: copy it out.
                let mut out: Vec<u8> = Vec::new();
                let mut k: usize = i;
                while k < j
                    invariant
                        i <= k <= j <= n,
                        n == line@.len(),
                        out@ =~= line@.subrange(i as int, k as int),
                    decreases j - k,
                {
                    out.push(line[k]);
                    k = k + 1;
                }
                proof {
                    assert(out@ =~= suffix.take((j - i) as int));
                    assert(tokens(suffix)[0] == out@);
                    assert(tokens(line@)[col as int] == tokens(line@).skip(idx as int)[0]);
                }
                return Some(out);
            }
            proof {
                assert(suffix.skip((j - i) as int) =~= line@.skip(j as int));
                assert(tokens(suffix).skip(1) =~= tokens(line@.skip(j as int)));
                assert(tokens(line@).skip(idx as int).skip(1) =~= tokens(line@).skip(
                    idx + 1,
                ));
            }
            idx = idx + 1;
            i = j;
        }
    }
    proof {
        assert(line@.skip(n as int) =~= Seq::<u8>::empty());
        assert(tokens(line@).skip(idx as int).len() == 0);
    }
    None
}

} // verus!
