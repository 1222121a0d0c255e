//! Full-buffer literal search: every character position where the pattern's
//! bytes occur inside a line's content, sorted by position.
//!
//! The scan's scope is per line: a hit is a character column of one line
//! whose content bytes continue with the pattern, and the contract states
//! soundness, completeness and order for exactly these.  A pattern holding a
//! line-feed byte never matches, since a window crossing a line end always
//! contains one; typed search input cannot contain one either.

use vstd::prelude::*;

verus! {

use crate::text_buffer::{TextBuffer, LinePos};
use crate::utf8_walk::{char_off, lemma_char_off, lemma_scalar_len_first, scalar_len, lemma_decode_len_le};

/// Position `a` comes strictly before `b`.
pub open spec fn pos_lt(a: LinePos, b: LinePos) -> bool {
    a.line < b.line || (a.line == b.line && a.col < b.col)
}

/// The pattern's bytes occur at character column `p.col` of line `p.line`,
/// inside that line's content bytes (separators excluded); this is the whole
/// search scope.
pub open spec fn match_at(buf: TextBuffer, nd: Seq<u8>, p: LinePos) -> bool {
    let lb = buf.line_bytes(p.line as int);
    let o = char_off(lb, p.col as int);
    &&& p.line < buf.line_count()
    &&& p.col < buf.line_view(p.line as int).len()
    &&& o + nd.len() <= lb.len()
    &&& lb.subrange(o, o + nd.len()) == nd
}

/// Whether the pattern's bytes equal the haystack's bytes at `off`.
fn bytes_eq_at(hay: &Vec<u8>, off: usize, nd: &[u8]) -> (r: bool)
    requires
        off + nd@.len() <= hay@.len(),
    ensures
        r == (hay@.subrange(off as int, off + nd@.len()) == nd@),
{
    let n = nd.len();
    let hn = hay.len();
    let mut i: usize = 0;
    while i < n
        invariant
            n == nd@.len(),
            hn == hay@.len(),
            off + n <= hn,
            i <= n,
            forall|j: int| 0 <= j < i ==> hay@[off + j] == #[trigger] nd@[j],
        decreases n - i,
    {
        if hay[off + i] != nd[i] {
            proof {
                assert(hay@.subrange(off as int, off + nd@.len())[i as int] != nd@[i as int]);
            }
            return false;
        }
        i = i + 1;
    }
    proof {
        assert(hay@.subrange(off as int, off + nd@.len()) =~= nd@);
    }
    true
}

/// Scans every line for the pattern; each returned position is a match, and
/// the positions come out strictly ascending.
#[verifier::rlimit(100)]
#[verifier::spinoff_prover]
pub fn search(needle: &[u8], buf: &TextBuffer) -> (r: Vec<LinePos>)
    requires
        buf.wf(),
    ensures
        forall|t: int| 0 <= t < r@.len() ==> match_at(*buf, needle@, #[trigger] r@[t]),
        forall|t: int| 0 <= t && t + 1 < r@.len() ==> pos_lt(#[trigger] r@[t], r@[t + 1]),
        forall|p: LinePos| #[trigger] match_at(*buf, needle@, p) ==> r@.contains(p),
{
    let mut out: Vec<LinePos> = Vec::new();
    let n = buf.total_lines();
    let mut li: usize = 0;
    while li < n
        invariant
            buf.wf(),
            n == buf.line_count(),
            li <= n,
            forall|t: int| 0 <= t < out@.len() ==> match_at(*buf, needle@, #[trigger] out@[t]),
            forall|t: int| 0 <= t && t + 1 < out@.len() ==> pos_lt(#[trigger] out@[t], out@[t + 1]),
            forall|t: int| 0 <= t < out@.len() ==> (#[trigger] out@[t]).line < li,
            forall|p: LinePos|
                #[trigger] match_at(*buf, needle@, p) && p.line < li ==> out@.contains(p),
        decreases n - li,
    {
        let lb = buf.line_bytes_vec(li);
        let ll = buf.line_len(li);
        let ghost lbs = buf.line_bytes(li as int);
        let mut c: usize = 0;
        let mut o: usize = 0;
        proof {
            buf.lemma_line_valid(li as int);
            lemma_decode_len_le(lbs);
        }
        while c < ll
            invariant
                buf.wf(),
                n == buf.line_count(),
                li < n,
                lb@ == lbs,
                lbs == buf.line_bytes(li as int),
                vstd::utf8::valid_utf8(lbs),
                ll == buf.line_view(li as int).len(),
                c <= ll,
                o == char_off(lbs, c as int),
                o <= lbs.len(),
                forall|t: int| 0 <= t < out@.len() ==> match_at(*buf, needle@, #[trigger] out@[t]),
                forall|t: int| 0 <= t && t + 1 < out@.len() ==> pos_lt(#[trigger] out@[t], out@[t + 1]),
                forall|t: int|
                    0 <= t < out@.len() ==> (#[trigger] out@[t]).line < li || (out@[t].line == li
                        && out@[t].col < c),
                forall|p: LinePos|
                    #[trigger] match_at(*buf, needle@, p) && (p.line < li || (p.line == li
                        && p.col < c)) ==> out@.contains(p),
            decreases ll - c,
        {
            proof {
                lemma_char_off(lbs, c as int);
            }
            let ghost np_spec = LinePos { line: li, col: c };
            let mut pushed = false;
            if needle.len() <= lb.len() && o <= lb.len() - needle.len() {
                if bytes_eq_at(&lb, o, needle) {
                    let ghost prev = out@;
                    let np = LinePos { line: li, col: c };
                    out.push(np);
                    pushed = true;
                    proof {
                        assert(out@ == prev.push(np));
                        assert forall|t: int| 0 <= t && t + 1 < out@.len() implies pos_lt(
                            #[trigger] out@[t],
                            out@[t + 1],
                        ) by {
                            assert(prev.push(np)[t] == prev[t]);
                            if t + 2 < out@.len() {
                                assert(prev.push(np)[t + 1] == prev[t + 1]);
                                assert(pos_lt(prev[t], prev[t + 1]));
                            } else {
                                assert(prev.push(np)[t + 1] == np);
                                assert(prev[t].line < li || (prev[t].line == li && prev[t].col
                                    < c));
                            }
                        }
                        assert forall|p: LinePos|
                            #[trigger] match_at(*buf, needle@, p) && (p.line < li || (p.line == li
                                && p.col < c + 1)) implies out@.contains(p) by {
                            if p.line < li || (p.line == li && p.col < c) {
                                let t = choose|t: int| 0 <= t < prev.len() && prev[t] == p;
                                assert(out@[t] == p);
                            } else {
                                assert(p == np);
                                assert(out@[out@.len() - 1] == np);
                            }
                        }
                    }
                }
            }
            proof {
                if !pushed {
                    // the skipped position is no match: either the pattern
                    // overruns the line or the bytes differ
                    assert(!match_at(*buf, needle@, np_spec));
                    assert forall|p: LinePos|
                        #[trigger] match_at(*buf, needle@, p) && (p.line < li || (p.line == li
                            && p.col < c + 1)) implies out@.contains(p) by {
                        assert(p != np_spec);
                    }
                }
            }
            proof {
                lemma_scalar_len_first(lbs.subrange(o as int, lbs.len() as int));
                lemma_char_off(lbs, c as int + 1);
            }
            let b0 = lb[o];
            let l = scalar_len(b0);
            o = o + l;
            c = c + 1;
        }
        li = li + 1;
    }
    out
}

} // verus!
