//! Auto-indentation: a new line below a reference line copies that line's
//! leading spaces.

use vstd::prelude::*;

verus! {

use crate::text_buffer::TextBuffer;

/// The number of leading space bytes of a line's content.
pub open spec fn leading_spaces(b: Seq<u8>) -> nat
    decreases b.len(),
{
    if b.len() == 0 || b[0] != 32 {
        0
    } else {
        1 + leading_spaces(b.drop_first())
    }
}

proof fn lemma_leading_spaces(b: Seq<u8>, k: int)
    requires
        0 <= k <= b.len(),
        forall|j: int| 0 <= j < k ==> #[trigger] b[j] == 32,
        k == b.len() || b[k] != 32,
    ensures
        leading_spaces(b) == k,
    decreases k,
{
    if k == 0 {
    } else {
        assert(b[0] == 32);
        let d = b.drop_first();
        assert forall|j: int| 0 <= j < k - 1 implies #[trigger] d[j] == 32 by {
            assert(d[j] == b[j + 1]);
        }
        assert(k - 1 == d.len() || d[k - 1] != 32) by {
            if k < b.len() {
                assert(d[k - 1] == b[k as int]);
            }
        }
        lemma_leading_spaces(d, k - 1);
    }
}

/// The indentation a fresh line at row `line` should copy: the leading spaces
/// of the line above it, or nothing for the first row.
pub fn indent_wanted(line: usize, buf: &TextBuffer) -> (r: Option<usize>)
    requires
        buf.wf(),
        line <= buf.line_count(),
    ensures
        (r is None) <==> line == 0,
        r matches Some(k) ==> k == leading_spaces(buf.line_bytes(line - 1)),
{
    if line == 0 {
        return None;
    }
    let lb = buf.line_bytes_vec(line - 1);
    let n = lb.len();
    let mut k: usize = 0;
    while k < n && lb[k] == 32
        invariant
            n == lb@.len(),
            k <= n,
            forall|j: int| 0 <= j < k ==> #[trigger] lb@[j] == 32,
        decreases n - k,
    {
        k = k + 1;
    }
    proof {
        lemma_leading_spaces(lb@, k as int);
    }
    Some(k)
}

} // verus!
