//! Line-indexed text store: raw UTF-8 bytes (line separators inline) in one
//! gap buffer, and the byte offset of each line's start in another, plus the
//! detected separator style.  Columns in the public interface always count
//! decoded characters; byte bookkeeping stays internal.

use vstd::prelude::*;

verus! {

use vstd::utf8::{
    valid_utf8, decode_utf8, is_char_boundary, is_continuation_byte, is_leading_byte_width_1,
    valid_utf8_split, decode_utf8_split, is_char_boundary_start_end_of_seq,
    is_char_boundary_iff_not_is_continuation_byte, valid_first_scalar, decode_first_scalar,
    length_of_first_scalar, is_scalar, pop_first_scalar,
};
use crate::gap_buffer::GapBuffer;
use crate::utf8_walk::{
    lemma_after_single_byte, lemma_mid_subrange_valid, lemma_boundary_step, lemma_scalar_len_first,
    lemma_first_scalar_agree, lemma_char_off, lemma_decode_len_le, lemma_decode_concat, char_off,
    scalar_len, spec_scalar_len,
};
use crate::chars::{char_from_u32, push_char};

/// The separator style detected when the buffer was loaded.
#[derive(PartialEq, Eq, Structural, Debug, Clone, Copy)]
pub enum LineSeparator {
    LF,
    CRLF,
}

impl LineSeparator {
    /// Width of the separator in bytes.
    pub open spec fn spec_width(self) -> int {
        if self is CRLF {
            2
        } else {
            1
        }
    }

    /// The separator's characters.
    pub open spec fn sep_chars(self) -> Seq<char> {
        if self is CRLF {
            seq!['\r', '\n']
        } else {
            seq!['\n']
        }
    }

    /// The separator's bytes.
    pub open spec fn sep_bytes(self) -> Seq<u8> {
        if self is CRLF {
            seq![13u8, 10u8]
        } else {
            seq![10u8]
        }
    }

    pub fn width(self) -> (r: usize)
        ensures
            r == self.spec_width(),
    {
        match self {
            LineSeparator::LF => 1,
            LineSeparator::CRLF => 2,
        }
    }

    pub fn as_str(&self) -> (r: &'static str)
        ensures
            r@ == self.sep_chars(),
    {
        proof {
            reveal_strlit("\n");
            reveal_strlit("\r\n");
        }
        match self {
            LineSeparator::LF => "\n",
            LineSeparator::CRLF => "\r\n",
        }
    }
}

/// A zero-indexed (line, column) position; the column counts decoded
/// characters, never bytes.
#[derive(Debug, Clone, Copy, PartialEq, Eq, Structural)]
pub struct LinePos {
    pub line: usize,
    pub col: usize,
}

/// Positions are ordered by line first, then column.
pub open spec fn pos_le(a: LinePos, b: LinePos) -> bool {
    a.line < b.line || (a.line == b.line && a.col <= b.col)
}

impl LinePos {
    pub fn new(line: usize, col: usize) -> (r: Self)
        ensures
            r.line == line,
            r.col == col,
    {
        LinePos { line, col }
    }

    /// The earlier of two positions.
    pub fn min(self, other: Self) -> (r: Self)
        ensures
            r == (if pos_le(self, other) {
                self
            } else {
                other
            }),
    {
        if self.line < other.line || (self.line == other.line && self.col <= other.col) {
            self
        } else {
            other
        }
    }

    /// The later of two positions.
    pub fn max(self, other: Self) -> (r: Self)
        ensures
            r == (if pos_le(self, other) {
                other
            } else {
                self
            }),
    {
        if self.line < other.line || (self.line == other.line && self.col <= other.col) {
            other
        } else {
            self
        }
    }
}

/// Decoded text of a buffer, either in one piece or split in two.
pub enum LineView {
    Contiguous(String),
    Parts(String, String),
}

/// True when the bytes contain a CRLF pair, which selects the CRLF style.
pub open spec fn has_crlf(b: Seq<u8>) -> bool {
    exists|k: int| 0 <= k && k + 1 < b.len() && #[trigger] b[k] == 13 && b[k + 1] == 10
}

/// In a CRLF byte sequence every line feed follows a carriage return and
/// every carriage return is followed by a line feed.
pub open spec fn crlf_strict(b: Seq<u8>) -> bool {
    &&& forall|p: int| #![trigger b[p]] 0 <= p < b.len() && b[p] == 10 ==> p >= 1 && b[p - 1] == 13
    &&& forall|p: int| #![trigger b[p]] 0 <= p < b.len() && b[p] == 13 ==> p + 1 < b.len() && b[p
        + 1] == 10
}

/// The line-start table is consistent with the bytes: offsets ascend by at
/// least a separator width, each entry after the first sits right after a
/// separator, and every line feed except possibly the buffer's final byte
/// has a start entry right after it.
pub open spec fn lines_wf(b: Seq<u8>, s: Seq<usize>, w: int) -> bool {
    &&& s.len() >= 1
    &&& s[0] == 0
    &&& forall|i: int, j: int| #![trigger s[i], s[j]] 0 <= i < j < s.len() ==> s[i] + w <= s[j]
    &&& forall|i: int| 0 <= i < s.len() ==> #[trigger] s[i] <= b.len()
    &&& forall|i: int|
        1 <= i < s.len() ==> b[#[trigger] s[i] - 1] == 10 && (w == 2 ==> b[s[i] - 2] == 13)
    &&& forall|k: int|
        #![trigger b[k]]
        0 <= k < b.len() - 1 && b[k] == 10 ==> exists|i: int|
            1 <= i < s.len() && #[trigger] s[i] == k + 1
}

/// The text store.
pub struct TextBuffer {
    chars: GapBuffer<u8>,
    lines: GapBuffer<usize>,
    line_sep: LineSeparator,
}

impl TextBuffer {
    /// The raw bytes, separators inline.
    pub closed spec fn bytes(self) -> Seq<u8> {
        self.chars@
    }

    /// The line-start offsets.
    pub closed spec fn starts(self) -> Seq<usize> {
        self.lines@
    }

    /// The detected separator style.
    pub closed spec fn sep(self) -> LineSeparator {
        self.line_sep
    }

    pub open spec fn sep_w(self) -> int {
        self.sep().spec_width()
    }

    /// The number of lines (always at least one).
    pub open spec fn line_count(self) -> int {
        self.starts().len() as int
    }

    pub open spec fn line_start(self, i: int) -> int {
        self.starts()[i] as int
    }

    /// One past the last raw byte of line `i`.
    pub open spec fn line_end(self, i: int) -> int {
        if i == self.line_count() - 1 {
            self.bytes().len() as int
        } else {
            self.line_start(i + 1)
        }
    }

    /// Whether the last line carries a trailing separator.
    pub open spec fn last_has_sep(self) -> bool {
        let b = self.bytes();
        let s = self.line_start(self.line_count() - 1);
        &&& b.len() - s >= self.sep_w()
        &&& b.len() >= 1
        &&& b[b.len() - 1] == 10
        &&& (self.sep_w() == 2 ==> b[b.len() - 2] == 13)
    }

    /// One past the last content byte of line `i` (its separator excluded).
    pub open spec fn content_end(self, i: int) -> int {
        if i < self.line_count() - 1 {
            self.line_end(i) - self.sep_w()
        } else if self.last_has_sep() {
            self.bytes().len() - self.sep_w()
        } else {
            self.bytes().len() as int
        }
    }

    /// Raw bytes of line `i`, separator included.
    pub open spec fn raw_line_bytes(self, i: int) -> Seq<u8> {
        self.bytes().subrange(self.line_start(i), self.line_end(i))
    }

    /// Content bytes of line `i`, separator excluded.
    pub open spec fn line_bytes(self, i: int) -> Seq<u8> {
        self.bytes().subrange(self.line_start(i), self.content_end(i))
    }

    /// The characters of line `i` as shown on screen.
    pub open spec fn line_view(self, i: int) -> Seq<char> {
        decode_utf8(self.line_bytes(i))
    }

    /// The characters of line `i` including its separator.
    pub open spec fn raw_line_view(self, i: int) -> Seq<char> {
        decode_utf8(self.raw_line_bytes(i))
    }

    pub closed spec fn bufs_wf(self) -> bool {
        self.chars.wf() && self.lines.wf()
    }

    /// Well-formedness: consistent line table, valid UTF-8, every line start
    /// on a character boundary, and strict CRLF pairing in CRLF style.
    pub open spec fn wf(self) -> bool {
        &&& self.bufs_wf()
        &&& lines_wf(self.bytes(), self.starts(), self.sep_w())
        &&& (self.sep_w() == 2 ==> crlf_strict(self.bytes()))
        &&& valid_utf8(self.bytes())
        &&& forall|i: int|
            0 <= i < self.line_count() ==> is_char_boundary(
                self.bytes(),
                #[trigger] self.line_start(i),
            )
    }

    /// The number of lines in the buffer.
    pub fn total_lines(&self) -> (r: usize)
        requires
            self.wf(),
        ensures
            r == self.line_count(),
    {
        self.lines.len()
    }

    /// Byte length of line `i` including its separator.
    pub fn raw_line_len(&self, line: usize) -> (r: usize)
        requires
            self.wf(),
            line < self.line_count(),
        ensures
            r == self.line_end(line as int) - self.line_start(line as int),
    {
        let n = self.lines.len();
        if line + 1 < n {
            self.lines.get_one(line + 1) - self.lines.get_one(line)
        } else {
            let total = self.chars.len();
            total - self.lines.get_one(line)
        }
    }

    /// The whole buffer's bytes, exactly as they would be written to disk.
    pub fn content(&self) -> (r: Vec<u8>)
        requires
            self.wf(),
        ensures
            r@ == self.bytes(),
    {
        let r = self.chars.get_to_end(0);
        proof {
            assert(self.bytes().subrange(0, self.bytes().len() as int) =~= self.bytes());
        }
        r
    }

    /// The content bytes of one line, separator excluded.
    pub fn line_bytes_vec(&self, line: usize) -> (r: Vec<u8>)
        requires
            self.wf(),
            line < self.line_count(),
        ensures
            r@ == self.line_bytes(line as int),
    {
        proof {
            self.lemma_line_valid(line as int);
        }
        let s = self.lines.get_one(line);
        let ce = self.content_end_of(line);
        self.chars.get_by_range(s, ce)
    }

    /// The byte length of the stored text.
    pub fn byte_len(&self) -> (r: usize)
        requires
            self.wf(),
        ensures
            r == self.bytes().len(),
    {
        self.chars.len()
    }

    /// The separator style in use.
    pub fn separator(&self) -> (r: LineSeparator)
        ensures
            r == self.sep(),
    {
        self.line_sep
    }

    /// Loads raw bytes: detects CRLF by searching for the first CRLF pair,
    /// then records one line start at offset zero and one after each line
    /// feed that has bytes following it.  The bytes themselves are stored
    /// unchanged, so serializing the buffer back yields them exactly.
    #[verifier::rlimit(50)]
    pub fn from_data(data: Vec<u8>) -> (r: Self)
        requires
            valid_utf8(data@),
            has_crlf(data@) ==> crlf_strict(data@),
        ensures
            r.wf(),
            r.bytes() == data@,
            (r.sep() is CRLF) == has_crlf(data@),
            r.sep_w() == (if has_crlf(data@) { 2int } else { 1int }),
            r.bytes().len() == 0 || r.line_start(r.line_count() - 1) < r.bytes().len(),
            r.line_count() == 1 + count_nl(data@) - (if r.last_has_sep() {
                1int
            } else {
                0int
            }),
    {
        let len = data.len();
        // detect the separator style
        let mut crlf = false;
        let mut k: usize = 0;
        if len > 0 {
            while k < len - 1 && !crlf
                invariant
                    len == data@.len(),
                    len > 0,
                    k < len,
                    crlf ==> has_crlf(data@),
                    !crlf ==> forall|j: int|
                        0 <= j < k ==> !(data@[j] == 13 && #[trigger] data@[j + 1] == 10),
                decreases len - k + (if crlf { 0int } else { 1int }),
            {
                if data[k] == 13 && data[k + 1] == 10 {
                    crlf = true;
                } else {
                    k = k + 1;
                }
            }
        }
        proof {
            if !crlf {
                assert forall|j: int| 0 <= j && j + 1 < data@.len() implies !(#[trigger] data@[j]
                    == 13 && data@[j + 1] == 10) by {
                    assert(j < k);
                }
                assert(!has_crlf(data@));
            }
        }
        let line_sep = if crlf {
            LineSeparator::CRLF
        } else {
            LineSeparator::LF
        };
        let ghost w: int = line_sep.spec_width();

        // build the line-start table
        let mut starts: Vec<usize> = Vec::new();
        starts.push(0);
        let mut p: usize = 0;
        while p < len
            invariant
                p <= len == data@.len(),
                starts@.len() >= 1,
                starts@[0] == 0,
                valid_utf8(data@),
                crlf == has_crlf(data@),
                crlf ==> crlf_strict(data@),
                w == (if crlf { 2int } else { 1int }),
                forall|i: int| 0 <= i < starts@.len() ==> #[trigger] starts@[i] <= p,
                forall|i: int| 1 <= i < starts@.len() ==> #[trigger] starts@[i] < data@.len(),
                forall|i: int| 1 <= i < starts@.len() ==> starts@[i - 1] + w <= #[trigger] starts@[i],
                forall|i: int|
                    1 <= i < starts@.len() ==> data@[#[trigger] starts@[i] - 1] == 10 && (w == 2
                        ==> data@[starts@[i] - 2] == 13),
                forall|q: int|
                    0 <= q < p && #[trigger] data@[q] == 10 && q + 1 < data@.len() ==> exists|i: int|
                        0 <= i < starts@.len() && starts@[i] == q + 1,
                forall|i: int|
                    0 <= i < starts@.len() ==> is_char_boundary(data@, #[trigger] starts@[i] as int),
            decreases len - p,
        {
            if data[p] == 10 && p + 1 < len {
                proof {
                    if crlf {
                        // a line feed in a CRLF buffer follows a carriage return,
                        // so the previous start cannot sit at this byte
                        assert(data@[p as int] == 10);
                        assert(p >= 1 && data@[p as int - 1] == 13);
                        let last = starts@[starts@.len() - 1] as int;
                        if last == p {
                            if last > 0 {
                                assert(data@[last - 1] == 10);
                            }
                            assert(false);
                        }
                    }
                    lemma_after_single_byte(data@, p as int);
                }
                let ghost old_starts = starts@;
                starts.push(p + 1);
                proof {
                    assert forall|q: int|
                        0 <= q < p + 1 && #[trigger] data@[q] == 10 && q + 1 < data@.len()
                        implies exists|i: int|
                            0 <= i < starts@.len() && starts@[i] == q + 1 by {
                        if q < p {
                            let i = choose|i: int|
                                0 <= i < old_starts.len() && old_starts[i] == q + 1;
                            assert(starts@[i] == q + 1);
                        } else {
                            assert(starts@[starts@.len() - 1] == q + 1);
                        }
                    }
                }
            }
            p = p + 1;
        }
        let chars = GapBuffer::<u8>::new(data);
        let lines = GapBuffer::<usize>::new(starts);
        let r = TextBuffer { chars, lines, line_sep };
        proof {
            lemma_scan_gives_lines_wf(r.bytes(), r.starts(), w);
            // the scan never records a start at the very end of the bytes,
            // so the last line is empty only in an empty buffer, which pins
            // the table: entries are exactly offset zero and the positions
            // after each interior line feed
            assert(r.bytes().len() == 0 || r.line_start(r.line_count() - 1) < r.bytes().len())
                by {
                if r.bytes().len() > 0 {
                    if r.line_count() >= 2 {
                        assert(r.starts()[r.line_count() - 1] < data@.len());
                    }
                }
            }
            r.lemma_total_lines_counts_separators();
        }
        r
    }
}

impl TextBuffer {
    /// The ordering of line `i`'s spans and the separator bytes at its end,
    /// read off the well-formedness invariant.
    pub proof fn lemma_line_spans(self, i: int)
        requires
            self.wf(),
            0 <= i < self.line_count(),
        ensures
            0 <= self.line_start(i) <= self.content_end(i) <= self.line_end(i)
                <= self.bytes().len(),
            self.content_end(i) < self.line_end(i) ==> self.line_end(i) - self.content_end(i)
                == self.sep_w() && self.bytes()[self.line_end(i) - 1] == 10 && (self.sep_w() == 2
                ==> self.bytes()[self.line_end(i) - 2] == 13),
            self.content_end(i) < self.bytes().len() ==> (self.bytes()[self.content_end(i)] == 10
                || self.bytes()[self.content_end(i)] == 13),
            i < self.line_count() - 1 ==> self.content_end(i) < self.line_end(i),
    {
        let n = self.line_count();
        if i < n - 1 {
            assert(self.starts()[i] + self.sep_w() <= self.starts()[i + 1]);
            assert(self.bytes()[self.starts()[i + 1] - 1] == 10);
        } else {
            if self.last_has_sep() {
            }
        }
    }

    /// Line `i`'s spans end on character boundaries and decode as valid
    /// UTF-8; its raw bytes are its content bytes plus (when present) the
    /// separator bytes.
    #[verifier::spinoff_prover]
    #[verifier::rlimit(100)]
    pub proof fn lemma_line_valid(self, i: int)
        requires
            self.wf(),
            0 <= i < self.line_count(),
        ensures
            0 <= self.line_start(i) <= self.content_end(i) <= self.line_end(i)
                <= self.bytes().len(),
            is_char_boundary(self.bytes(), self.line_start(i)),
            is_char_boundary(self.bytes(), self.content_end(i)),
            is_char_boundary(self.bytes(), self.line_end(i)),
            valid_utf8(self.line_bytes(i)),
            valid_utf8(self.raw_line_bytes(i)),
            valid_utf8(self.bytes().subrange(0, self.line_start(i))),
            valid_utf8(self.bytes().subrange(self.line_start(i), self.bytes().len() as int)),
            self.content_end(i) < self.line_end(i) ==> self.raw_line_bytes(i) == self.line_bytes(
                i,
            ) + self.sep().sep_bytes(),
            self.content_end(i) == self.line_end(i) ==> self.raw_line_bytes(i) == self.line_bytes(
                i,
            ),
    {
        let b = self.bytes();
        let s = self.line_start(i);
        let ce = self.content_end(i);
        let e = self.line_end(i);
        let n = self.line_count();
        self.lemma_line_spans(i);
        assert(ce == b.len() || !is_continuation_byte(b[ce]));
        lemma_mid_subrange_valid(b, s, ce);
        assert(e == b.len() || !is_continuation_byte(b[e])) by {
            if e < b.len() {
                assert(is_char_boundary(b, self.line_start(i + 1)));
                is_char_boundary_iff_not_is_continuation_byte(b, e);
            }
        }
        lemma_mid_subrange_valid(b, s, e);
        // raw = content + separator
        if ce < e {
            assert(self.raw_line_bytes(i) =~= self.line_bytes(i) + self.sep().sep_bytes());
        } else {
            assert(self.raw_line_bytes(i) =~= self.line_bytes(i));
        }
    }

    /// One past the last content byte of `line`, computed from the stored
    /// offsets and, for the last line, by inspecting the trailing bytes.
    fn content_end_of(&self, line: usize) -> (r: usize)
        requires
            self.wf(),
            line < self.line_count(),
        ensures
            r == self.content_end(line as int),
    {
        proof {
            self.lemma_line_valid(line as int);
        }
        let n = self.lines.len();
        let w = self.line_sep.width();
        if line + 1 < n {
            self.lines.get_one(line + 1) - w
        } else {
            let total = self.chars.len();
            let start = self.lines.get_one(line);
            if total - start >= w && self.chars.get_one(total - 1) == 10 {
                if w == 2 {
                    if self.chars.get_one(total - 2) == 13 {
                        total - w
                    } else {
                        total
                    }
                } else {
                    total - w
                }
            } else {
                total
            }
        }
    }
}

impl TextBuffer {
    /// Character `k` of line `i` starts at global byte offset
    /// `line_start(i) + char_off(line_bytes(i), k)`, which is a character
    /// boundary of the whole buffer, and decoding there yields that
    /// character.
    pub proof fn lemma_col_position(self, i: int, k: int)
        requires
            self.wf(),
            0 <= i < self.line_count(),
            0 <= k <= self.line_view(i).len(),
        ensures
            ({
                let lb = self.line_bytes(i);
                let off = char_off(lb, k);
                let p = self.line_start(i) + off;
                &&& 0 <= off <= lb.len()
                &&& self.line_start(i) <= p <= self.content_end(i)
                &&& is_char_boundary(self.bytes(), p)
                &&& (k == self.line_view(i).len() <==> off == lb.len())
                &&& k < self.line_view(i).len() ==> ({
                    let gsuf = self.bytes().subrange(p, self.bytes().len() as int);
                    &&& valid_first_scalar(gsuf)
                    &&& self.line_view(i)[k] == decode_first_scalar(gsuf) as char
                    &&& length_of_first_scalar(gsuf) == char_off(lb, k + 1) - char_off(lb, k)
                })
            }),
    {
        let b = self.bytes();
        let lb = self.line_bytes(i);
        let s = self.line_start(i);
        self.lemma_line_valid(i);
        lemma_char_off(lb, k);
        let off = char_off(lb, k);
        let p = s + off;
        // the global position is a boundary
        assert(is_char_boundary(b, p)) by {
            if off < lb.len() {
                lemma_char_off(lb, k);
                let lsuf = lb.subrange(off, lb.len() as int);
                assert(valid_first_scalar(lsuf));
                assert(!is_continuation_byte(lsuf[0]));
                assert(b[p] == lb[off]);
                is_char_boundary_iff_not_is_continuation_byte(b, p);
            } else {
                // position is the content end, which holds a separator byte
                // or the end of the buffer
                self.lemma_line_spans(i);
                if p < b.len() {
                    assert(b[p] == 10 || b[p] == 13);
                    is_char_boundary_iff_not_is_continuation_byte(b, p);
                } else {
                    is_char_boundary_start_end_of_seq(b);
                }
            }
        }
        if k < self.line_view(i).len() {
            let lsuf = lb.subrange(off, lb.len() as int);
            let gsuf = b.subrange(p, b.len() as int);
            assert(length_of_first_scalar(lsuf) == char_off(lb, k + 1) - off);
            assert(length_of_first_scalar(lsuf) <= lb.len() - off);
            assert forall|j: int| 0 <= j < length_of_first_scalar(lsuf) implies lsuf[j]
                == #[trigger] gsuf[j] by {
                assert(lsuf[j] == b[s + off + j]);
                assert(gsuf[j] == b[p + j]);
            }
            lemma_first_scalar_agree(lsuf, gsuf);
            assert(self.line_view(i)[k] == decode_first_scalar(lsuf) as char);
        }
    }

    /// The character count of line `line` as seen on screen, its separator
    /// never included.
    pub fn line_len(&self, line: usize) -> (r: usize)
        requires
            self.wf(),
            line < self.line_count(),
        ensures
            r == self.line_view(line as int).len(),
    {
        proof {
            self.lemma_line_valid(line as int);
        }
        let s = self.lines.get_one(line);
        let ce = self.content_end_of(line);
        let ghost lb = self.line_bytes(line as int);
        let mut o: usize = s;
        let mut k: usize = 0;
        while o < ce
            invariant
                self.wf(),
                line < self.line_count(),
                lb == self.line_bytes(line as int),
                s == self.line_start(line as int),
                ce == self.content_end(line as int),
                s <= o <= ce <= self.bytes().len(),
                k <= self.line_view(line as int).len(),
                o - s == char_off(lb, k as int),
            decreases ce - o,
        {
            proof {
                self.lemma_line_valid(line as int);
                self.lemma_col_position(line as int, k as int);
                lemma_char_off(lb, k as int);
            }
            let b0 = self.chars.get_one(o);
            proof {
                lemma_scalar_len_first(lb.subrange(o - s, lb.len() as int));
                assert(lb[o - s] == self.bytes()[o as int]);
                self.lemma_col_position(line as int, k as int + 1);
            }
            let l = scalar_len(b0);
            proof {
                lemma_decode_len_le(lb);
            }
            o = o + l;
            k = k + 1;
        }
        proof {
            lemma_char_off(lb, k as int);
        }
        k
    }

    /// Translates a character column of `line` to the byte offset inside the
    /// line where that column starts.
    pub fn screen_index_to_bytes_index(&self, line: usize, index: usize) -> (r: usize)
        requires
            self.wf(),
            line < self.line_count(),
            index <= self.line_view(line as int).len(),
        ensures
            r == char_off(self.line_bytes(line as int), index as int),
            r <= self.content_end(line as int) - self.line_start(line as int),
    {
        proof {
            self.lemma_line_valid(line as int);
        }
        let s = self.lines.get_one(line);
        let ce = self.content_end_of(line);
        let ghost lb = self.line_bytes(line as int);
        let mut o: usize = s;
        let mut k: usize = 0;
        while k < index
            invariant
                self.wf(),
                line < self.line_count(),
                index <= self.line_view(line as int).len(),
                lb == self.line_bytes(line as int),
                s == self.line_start(line as int),
                ce == self.content_end(line as int),
                s <= o <= ce <= self.bytes().len(),
                k <= index,
                o - s == char_off(lb, k as int),
            decreases index - k,
        {
            proof {
                self.lemma_line_valid(line as int);
                self.lemma_col_position(line as int, k as int);
                lemma_char_off(lb, k as int);
            }
            let b0 = self.chars.get_one(o);
            proof {
                lemma_scalar_len_first(lb.subrange(o - s, lb.len() as int));
                assert(lb[o - s] == self.bytes()[o as int]);
                self.lemma_col_position(line as int, k as int + 1);
                lemma_char_off(lb, k as int + 1);
            }
            let l = scalar_len(b0);
            o = o + l;
            k = k + 1;
        }
        o - s
    }

    /// The decoded text of line `line` without its trailing separator.
    pub fn line(&self, line: usize) -> (r: String)
        requires
            self.wf(),
            line < self.line_count(),
        ensures
            r@ == self.line_view(line as int),
    {
        proof {
            self.lemma_line_valid(line as int);
        }
        let s = self.lines.get_one(line);
        let ce = self.content_end_of(line);
        let ghost lb = self.line_bytes(line as int);
        let mut out = String::new();
        let mut o: usize = s;
        let mut k: usize = 0;
        while o < ce
            invariant
                self.wf(),
                line < self.line_count(),
                lb == self.line_bytes(line as int),
                s == self.line_start(line as int),
                ce == self.content_end(line as int),
                s <= o <= ce <= self.bytes().len(),
                k <= self.line_view(line as int).len(),
                o - s == char_off(lb, k as int),
                out@ == self.line_view(line as int).take(k as int),
            decreases ce - o,
        {
            proof {
                self.lemma_line_valid(line as int);
                self.lemma_col_position(line as int, k as int);
                lemma_char_off(lb, k as int);
            }
            let (c, l) = decode_char_in(&self.chars, o);
            push_char(&mut out, c);
            proof {
                self.lemma_col_position(line as int, k as int + 1);
                lemma_char_off(lb, k as int + 1);
                assert(c == self.line_view(line as int)[k as int]);
                assert(out@ =~= self.line_view(line as int).take(k as int + 1));
            }
            proof {
                lemma_decode_len_le(lb);
            }
            o = o + l;
            k = k + 1;
        }
        proof {
            lemma_char_off(lb, k as int);
            assert(out@ =~= self.line_view(line as int));
        }
        out
    }
}

impl TextBuffer {
    /// The relation between a buffer before and after replacing the byte span
    /// of columns `c1 .. c2` of `line` with separator-free bytes `d`: the new
    /// bytes are a splice at the corresponding byte offsets, the start table
    /// keeps earlier entries and shifts later ones.
    pub open spec fn spliced(pre: TextBuffer, post: TextBuffer, line: int, c1: int, c2: int, d: Seq<
        u8,
    >) -> bool {
        let p1 = pre.line_start(line) + char_off(pre.line_bytes(line), c1);
        let p2 = pre.line_start(line) + char_off(pre.line_bytes(line), c2);
        let delta = d.len() - (p2 - p1);
        &&& post.sep() == pre.sep()
        &&& post.bytes() == pre.bytes().subrange(0, p1) + d + pre.bytes().subrange(
            p2,
            pre.bytes().len() as int,
        )
        &&& post.starts().len() == pre.starts().len()
        &&& forall|i: int| 0 <= i <= line ==> #[trigger] post.line_start(i) == pre.line_start(i)
        &&& forall|i: int|
            line < i < pre.line_count() ==> #[trigger] post.line_start(i) == pre.line_start(i)
                + delta
    }

    /// Splicing separator-free valid UTF-8 into one line's content span
    /// preserves well-formedness, rewrites that line's characters as a splice
    /// at the character level, and leaves every other line's characters
    /// unchanged.
    #[verifier::rlimit(100)]
    #[verifier::spinoff_prover]
    pub proof fn lemma_splice_in_line(pre: TextBuffer, post: TextBuffer, line: int, c1: int, c2: int, d: Seq<
        u8,
    >)
        requires
            pre.wf(),
            0 <= line < pre.line_count(),
            0 <= c1 <= c2 <= pre.line_view(line).len(),
            valid_utf8(d),
            forall|j: int|
                0 <= j < d.len() ==> #[trigger] d[j] != 10 && (pre.sep_w() == 2 ==> d[j] != 13),
            TextBuffer::spliced(pre, post, line, c1, c2, d),
            pre.bufs_wf() ==> post.bufs_wf(),
        ensures
            post.wf(),
            post.line_count() == pre.line_count(),
            post.line_view(line) == pre.line_view(line).take(c1) + decode_utf8(d)
                + pre.line_view(line).skip(c2),
            forall|j: int|
                0 <= j < pre.line_count() && j != line ==> #[trigger] post.line_view(j)
                    == pre.line_view(j),
            post.line_view(line).len() == pre.line_view(line).len() - (c2 - c1) + decode_utf8(
                d,
            ).len(),
            post.last_has_sep() == pre.last_has_sep(),
            post.bytes().len() == pre.bytes().len() + d.len() - (char_off(
                pre.line_bytes(line),
                c2,
            ) - char_off(pre.line_bytes(line), c1)),
    {
        let b = pre.bytes();
        let s = pre.starts();
        let w = pre.sep_w();
        let n = pre.line_count();
        let lb = pre.line_bytes(line);
        let ls = pre.line_start(line);
        let ce = pre.content_end(line);
        let o1 = char_off(lb, c1);
        let o2 = char_off(lb, c2);
        let p1 = ls + o1;
        let p2 = ls + o2;
        let dl = d.len() as int;
        let delta = dl - (p2 - p1);
        let b2 = post.bytes();

        pre.lemma_line_valid(line);
        pre.lemma_line_spans(line);
        pre.lemma_col_position(line, c1);
        pre.lemma_col_position(line, c2);
        lemma_char_off(lb, c1);
        lemma_char_off(lb, c2);
        crate::utf8_walk::lemma_char_off_mono(lb, c1, c2);
        assert(0 <= o1 <= o2 <= lb.len());
        assert(ls <= p1 <= p2 <= ce);

        TextBuffer::lemma_splice_valid(pre, post, line, c1, c2, d);
        TextBuffer::lemma_splice_keeps_tail(pre, post, line, c1, c2, d);
        TextBuffer::lemma_splice_lines_wf(pre, post, line, c1, c2, d);
        if w == 2 {
            TextBuffer::lemma_splice_crlf(pre, post, line, c1, c2, d);
        }
        TextBuffer::lemma_splice_boundaries(pre, post, line, c1, c2, d);
        assert(post.wf());
        TextBuffer::lemma_splice_views(pre, post, line, c1, c2, d);
    }

    /// The spliced bytes are valid UTF-8.
    #[verifier::rlimit(100)]
    #[verifier::spinoff_prover]
    proof fn lemma_splice_valid(pre: TextBuffer, post: TextBuffer, line: int, c1: int, c2: int, d: Seq<
        u8,
    >)
        requires
            TextBuffer::splice_ctx(pre, post, line, c1, c2, d),
        ensures
            valid_utf8(post.bytes()),
    {
        let b = pre.bytes();
        let b2 = post.bytes();
        let lb = pre.line_bytes(line);
        let ls = pre.line_start(line);
        let p1 = ls + char_off(lb, c1);
        let p2 = ls + char_off(lb, c2);
        pre.lemma_line_valid(line);
        pre.lemma_col_position(line, c1);
        pre.lemma_col_position(line, c2);
        valid_utf8_split(b, p1);
        assert(valid_utf8(b.subrange(0, p1)));
        lemma_mid_subrange_valid(b, p2, b.len() as int);
        assert(valid_utf8(b.subrange(p2, b.len() as int))) by {
            assert(b.subrange(p2, b.len() as int) =~= b.subrange(p2, b.len() as int).subrange(
                0,
                b.len() - p2,
            ));
        }
        lemma_decode_concat(b.subrange(0, p1), d);
        lemma_decode_concat(b.subrange(0, p1) + d, b.subrange(p2, b.len() as int));
        assert(b2 =~= (b.subrange(0, p1) + d) + b.subrange(p2, b.len() as int));
    }

    /// Every line start of the spliced buffer is a character boundary.
    #[verifier::rlimit(100)]
    #[verifier::spinoff_prover]
    proof fn lemma_splice_boundaries(pre: TextBuffer, post: TextBuffer, line: int, c1: int, c2: int, d: Seq<
        u8,
    >)
        requires
            TextBuffer::splice_ctx(pre, post, line, c1, c2, d),
            valid_utf8(post.bytes()),
        ensures
            forall|i: int|
                0 <= i < post.line_count() ==> is_char_boundary(
                    post.bytes(),
                    #[trigger] post.line_start(i),
                ),
    {
        let b = pre.bytes();
        let b2 = post.bytes();
        let n = pre.line_count();
        let lb = pre.line_bytes(line);
        let ls = pre.line_start(line);
        let ce = pre.content_end(line);
        let o1 = char_off(lb, c1);
        let p1 = ls + o1;
        let p2 = ls + char_off(lb, c2);
        let dl = d.len() as int;
        let delta = dl - (p2 - p1);
        pre.lemma_line_valid(line);
        pre.lemma_col_position(line, c1);
        pre.lemma_col_position(line, c2);
        assert(b2.len() == b.len() + delta);
        assert forall|k: int| 0 <= k < p1 implies #[trigger] b2[k] == b[k] by {}
        assert forall|k: int| p1 <= k < p1 + dl implies #[trigger] b2[k] == d[k - p1] by {}
        assert forall|k: int| p2 <= k < b.len() implies #[trigger] b2[k + delta] == b[k] by {}
        assert forall|i: int| 0 <= i < n implies is_char_boundary(
            b2,
            #[trigger] post.line_start(i),
        ) by {
            let q = post.line_start(i);
            if q == b2.len() {
                is_char_boundary_start_end_of_seq(b2);
            } else {
                assert(!is_continuation_byte(b2[q])) by {
                    if i <= line {
                        assert(q == pre.line_start(i));
                        if q < p1 {
                            assert(b2[q] == b[q]);
                            assert(pre.line_start(i) < b.len());
                            is_char_boundary_iff_not_is_continuation_byte(b, q);
                        } else {
                            // only the spliced line's start can reach the splice
                            assert(i == line && q == p1 && o1 == 0);
                            if dl > 0 {
                                assert(b2[q] == d[0]);
                                assert(valid_first_scalar(d));
                            } else {
                                assert(b2[q] == b[q + (p2 - p1)]);
                                assert(q + (p2 - p1) == p2);
                                if p2 < b.len() {
                                    is_char_boundary_iff_not_is_continuation_byte(b, p2);
                                }
                            }
                        }
                    } else {
                        assert(q == pre.line_start(i) + delta);
                        assert(pre.line_start(i) >= pre.line_start(line + 1));
                        assert(pre.line_start(line + 1) >= p2) by {
                            assert(p2 <= ce);
                            assert(ce <= pre.line_end(line));
                        }
                        assert(b2[q] == b[pre.line_start(i)]);
                        assert(pre.line_start(i) < b.len());
                        is_char_boundary_iff_not_is_continuation_byte(b, pre.line_start(i));
                    }
                }
                is_char_boundary_iff_not_is_continuation_byte(b2, q);
            }
        }
    }

    /// The spliced buffer's lines decode as expected: the spliced line is a
    /// character-level splice and every other line is unchanged.
    #[verifier::rlimit(100)]
    #[verifier::spinoff_prover]
    proof fn lemma_splice_views(pre: TextBuffer, post: TextBuffer, line: int, c1: int, c2: int, d: Seq<
        u8,
    >)
        requires
            TextBuffer::splice_ctx(pre, post, line, c1, c2, d),
            post.last_has_sep() == pre.last_has_sep(),
        ensures
            post.line_view(line) == pre.line_view(line).take(c1) + decode_utf8(d)
                + pre.line_view(line).skip(c2),
            forall|j: int|
                0 <= j < pre.line_count() && j != line ==> #[trigger] post.line_view(j)
                    == pre.line_view(j),
    {
        let b = pre.bytes();
        let b2 = post.bytes();
        let n = pre.line_count();
        let lb = pre.line_bytes(line);
        let ls = pre.line_start(line);
        let ce = pre.content_end(line);
        let o1 = char_off(lb, c1);
        let o2 = char_off(lb, c2);
        let p1 = ls + o1;
        let p2 = ls + o2;
        let dl = d.len() as int;
        let delta = dl - (p2 - p1);
        pre.lemma_line_valid(line);
        pre.lemma_col_position(line, c1);
        pre.lemma_col_position(line, c2);
        lemma_char_off(lb, c1);
        lemma_char_off(lb, c2);
        assert(b2.len() == b.len() + delta);
        assert forall|k: int| 0 <= k < p1 implies #[trigger] b2[k] == b[k] by {}
        assert forall|k: int| p1 <= k < p1 + dl implies #[trigger] b2[k] == d[k - p1] by {}
        assert forall|k: int| p2 <= k < b.len() implies #[trigger] b2[k + delta] == b[k] by {}

        // other lines keep their characters
        assert forall|j: int| 0 <= j < n && j != line implies #[trigger] post.line_view(j)
            == pre.line_view(j) by {
            pre.lemma_line_valid(j);
            if j < line {
                assert(post.line_start(j) == pre.line_start(j));
                assert(post.line_start(j + 1) == pre.line_start(j + 1));
                assert(pre.line_end(j) == pre.line_start(j + 1));
                assert(pre.line_start(j + 1) <= pre.line_start(line));
                assert(pre.line_start(line) <= p1);
                assert(post.content_end(j) == pre.content_end(j));
                assert(post.line_bytes(j) =~= pre.line_bytes(j));
            } else {
                assert(pre.line_start(j) >= pre.line_start(line + 1) >= p2);
                assert(post.line_start(j) == pre.line_start(j) + delta);
                assert(post.content_end(j) == pre.content_end(j) + delta) by {
                    if j < n - 1 {
                        assert(post.line_start(j + 1) == pre.line_start(j + 1) + delta);
                    }
                }
                assert(post.line_bytes(j) =~= pre.line_bytes(j));
            }
        }

        // the spliced line's characters are the character-level splice
        assert(post.line_start(line) == pre.line_start(line));
        assert(post.content_end(line) == ce + delta) by {
            if line < n - 1 {
                assert(post.line_start(line + 1) == pre.line_start(line + 1) + delta);
            }
        }
        let lb2 = post.line_bytes(line);
        assert(lb2 =~= lb.subrange(0, o1) + d + lb.subrange(o2, lb.len() as int));
        lemma_decode_concat(lb.subrange(0, o1), d);
        lemma_decode_concat(lb.subrange(0, o1) + d, lb.subrange(o2, lb.len() as int));
        assert(post.line_view(line) == pre.line_view(line).take(c1) + decode_utf8(d)
            + pre.line_view(line).skip(c2));
    }
}

impl TextBuffer {
    /// Inserts `data` (valid UTF-8, free of separator bytes) before character
    /// column `index` of `line`: that line's characters become a splice, every
    /// other line is untouched, and later line starts shift by `data.len()`.
    pub fn insert_into_line(&mut self, line: usize, index: usize, data: &[u8])
        requires
            old(self).wf(),
            line < old(self).line_count(),
            index <= old(self).line_view(line as int).len(),
            valid_utf8(data@),
            forall|j: int|
                0 <= j < data@.len() ==> #[trigger] data@[j] != 10 && (old(self).sep_w() == 2
                    ==> data@[j] != 13),
            old(self).bytes().len() + data@.len() <= usize::MAX,
        ensures
            final(self).wf(),
            final(self).sep() == old(self).sep(),
            final(self).line_count() == old(self).line_count(),
            final(self).line_view(line as int) == old(self).line_view(line as int).take(
                index as int,
            ) + decode_utf8(data@) + old(self).line_view(line as int).skip(index as int),
            forall|j: int|
                0 <= j < old(self).line_count() && j != line ==> #[trigger] final(self).line_view(
                    j,
                ) == old(self).line_view(j),
            final(self).last_has_sep() == old(self).last_has_sep(),
            final(self).bytes().len() == old(self).bytes().len() + data@.len(),
            final(self).bytes() == old(self).bytes().subrange(
                0,
                old(self).line_start(line as int) + char_off(
                    old(self).line_bytes(line as int),
                    index as int,
                ),
            ) + data@ + old(self).bytes().subrange(
                old(self).line_start(line as int) + char_off(
                    old(self).line_bytes(line as int),
                    index as int,
                ),
                old(self).bytes().len() as int,
            ),
            forall|i: int|
                0 <= i <= line ==> #[trigger] final(self).line_start(i) == old(self).line_start(
                    i,
                ),
            forall|i: int|
                line < i < old(self).line_count() ==> #[trigger] final(self).line_start(i) == old(
                    self,
                ).line_start(i) + data@.len(),
    {
        proof {
            old(self).lemma_line_valid(line as int);
            old(self).lemma_col_position(line as int, index as int);
        }
        let start = self.lines.get_one(line);
        let off = self.screen_index_to_bytes_index(line, index);
        let total = self.chars.len();
        self.chars.insert(start + off, data);
        let nl = self.lines.len();
        proof {
            assert forall|i: int| line + 1 <= i < nl implies old(self).starts()[i] + data@.len()
                <= usize::MAX by {
                assert(old(self).line_start(i) <= old(self).bytes().len());
            }
        }
        self.lines.increment_range_by(line + 1, nl, data.len());
        proof {
            assert forall|i: int| 0 <= i <= line implies #[trigger] self.line_start(i) == old(
                self,
            ).line_start(i) by {}
            assert(TextBuffer::spliced(
                *old(self),
                *self,
                line as int,
                index as int,
                index as int,
                data@,
            )) by {
                let lb = old(self).line_bytes(line as int);
                assert(char_off(lb, index as int) == off);
                assert(old(self).bytes().subrange(0, start + off) + data@ + old(
                    self,
                ).bytes().subrange(start + off, old(self).bytes().len() as int) =~= self.bytes());
            }
            TextBuffer::lemma_splice_in_line(
                *old(self),
                *self,
                line as int,
                index as int,
                index as int,
                data@,
            );
            assert(old(self).line_view(line as int).take(index as int) + decode_utf8(data@) + old(
                self,
            ).line_view(line as int).skip(index as int) == self.line_view(line as int));
        }
    }

    /// Removes the `count` characters at columns `index .. index + count` of
    /// `line`; later line starts shift back by the removed bytes.
    pub fn remove_from_line(&mut self, line: usize, index: usize, count: usize)
        requires
            old(self).wf(),
            line < old(self).line_count(),
            index + count <= old(self).line_view(line as int).len(),
        ensures
            final(self).wf(),
            final(self).sep() == old(self).sep(),
            final(self).line_count() == old(self).line_count(),
            final(self).line_view(line as int) == old(self).line_view(line as int).take(
                index as int,
            ) + old(self).line_view(line as int).skip(index + count),
            forall|j: int|
                0 <= j < old(self).line_count() && j != line ==> #[trigger] final(self).line_view(
                    j,
                ) == old(self).line_view(j),
            final(self).last_has_sep() == old(self).last_has_sep(),
            final(self).line_view(line as int).len() == old(self).line_view(
                line as int,
            ).len() - count,
            final(self).bytes() == old(self).bytes().subrange(
                0,
                old(self).line_start(line as int) + char_off(
                    old(self).line_bytes(line as int),
                    index as int,
                ),
            ) + old(self).bytes().subrange(
                old(self).line_start(line as int) + char_off(
                    old(self).line_bytes(line as int),
                    index + count,
                ),
                old(self).bytes().len() as int,
            ),
            forall|i: int|
                0 <= i <= line ==> #[trigger] final(self).line_start(i) == old(self).line_start(
                    i,
                ),
            forall|i: int|
                line < i < old(self).line_count() ==> #[trigger] final(self).line_start(i) == old(
                    self,
                ).line_start(i) - (char_off(old(self).line_bytes(line as int), index + count)
                    - char_off(old(self).line_bytes(line as int), index as int)),
    {
        proof {
            old(self).lemma_line_valid(line as int);
            old(self).lemma_col_position(line as int, index as int);
            old(self).lemma_col_position(line as int, index + count);
            crate::utf8_walk::lemma_char_off_mono(
                old(self).line_bytes(line as int),
                index as int,
                index + count,
            );
            lemma_decode_len_le(old(self).line_bytes(line as int));
        }
        let total = self.chars.len();
        let start = self.lines.get_one(line);
        let off1 = self.screen_index_to_bytes_index(line, index);
        let off2 = self.screen_index_to_bytes_index(line, index + count);
        self.chars.remove(start + off1, off2 - off1);
        let nl = self.lines.len();
        proof {
            assert forall|i: int| line + 1 <= i < nl implies old(self).starts()[i] >= (off2
                - off1) by {
                assert(old(self).line_start(i) >= old(self).line_start(line + 1));
                assert(old(self).line_start(line + 1) >= old(self).content_end(line as int)
                    >= start + off2);
            }
        }
        self.lines.decrement_range_by(line + 1, nl, off2 - off1);
        proof {
            assert forall|i: int| 0 <= i <= line implies #[trigger] self.line_start(i) == old(
                self,
            ).line_start(i) by {}
            let lb = old(self).line_bytes(line as int);
            let d = Seq::<u8>::empty();
            assert(TextBuffer::spliced(
                *old(self),
                *self,
                line as int,
                index as int,
                index + count,
                d,
            )) by {
                assert(char_off(lb, index as int) == off1);
                assert(char_off(lb, index + count) == off2);
                assert(old(self).bytes().subrange(0, start + off1) + d + old(
                    self,
                ).bytes().subrange(start + off2, old(self).bytes().len() as int) =~= self.bytes());
                assert forall|i: int| line < i < old(self).line_count()
                    implies #[trigger] self.line_start(i) == old(self).line_start(i) + (
                d.len() - (off2 - off1)) by {}
            }
            TextBuffer::lemma_splice_in_line(
                *old(self),
                *self,
                line as int,
                index as int,
                index + count,
                d,
            );
            assert(decode_utf8(d) =~= Seq::<char>::empty());
            assert(old(self).line_view(line as int).take(index as int) + old(self).line_view(
                line as int,
            ).skip(index + count) =~= self.line_view(line as int));
        }
    }

    /// The separator's characters encode to exactly its bytes.
    pub proof fn lemma_sep_encode(sep: LineSeparator)
        ensures
            vstd::utf8::encode_utf8(sep.sep_chars()) == sep.sep_bytes(),
            valid_utf8(sep.sep_bytes()),
    {
        vstd::utf8::is_ascii_chars_encode_utf8(sep.sep_chars());
        vstd::utf8::encode_utf8_valid_utf8(sep.sep_chars());
        assert(vstd::utf8::encode_utf8(sep.sep_chars()) =~= sep.sep_bytes());
    }

    /// Inserts a separator before character column `index` of `line`: the
    /// line keeps its first `index` characters, a new line holding the rest
    /// appears right below it, and later lines shift down by one.
    #[verifier::rlimit(100)]
    #[verifier::spinoff_prover]
    pub fn split_line_at_index(&mut self, line: usize, index: usize)
        requires
            old(self).wf(),
            line < old(self).line_count(),
            index <= old(self).line_view(line as int).len(),
            old(self).bytes().len() + old(self).sep_w() <= usize::MAX,
        ensures
            final(self).wf(),
            final(self).sep() == old(self).sep(),
            final(self).line_count() == old(self).line_count() + 1,
            final(self).line_view(line as int) == old(self).line_view(line as int).take(
                index as int,
            ),
            final(self).line_view(line + 1) == old(self).line_view(line as int).skip(index as int),
            forall|j: int|
                0 <= j < line ==> #[trigger] final(self).line_view(j) == old(self).line_view(j),
            forall|j: int|
                line + 1 < j < old(self).line_count() + 1 ==> #[trigger] final(self).line_view(j)
                    == old(self).line_view(j - 1),
            final(self).last_has_sep() == old(self).last_has_sep(),
            final(self).bytes().len() == old(self).bytes().len() + old(self).sep_w(),
    {
        proof {
            old(self).lemma_line_valid(line as int);
            old(self).lemma_col_position(line as int, index as int);
            TextBuffer::lemma_sep_encode(old(self).sep());
        }
        let n = self.lines.len();
        let w = self.line_sep.width();
        let start = self.lines.get_one(line);
        let off = self.screen_index_to_bytes_index(line, index);
        let total = self.chars.len();
        let sep_str = self.line_sep.as_str();
        self.chars.insert(start + off, sep_str.as_bytes());
        let mut entry: Vec<usize> = Vec::new();
        entry.push(start + off + w);
        self.lines.insert(line + 1, entry.as_slice());
        let nl = self.lines.len();
        proof {
            assert forall|i: int| line + 2 <= i < nl implies self.lines@[i] + w
                <= usize::MAX by {
                assert(self.lines@[i] == old(self).starts()[i - 1]);
                assert(old(self).line_start(i - 1) <= old(self).bytes().len());
            }
        }
        self.lines.increment_range_by(line + 2, nl, w);
        proof {
            let ghost p = start + off;
            assert(self.bytes() == old(self).bytes().subrange(0, p as int)
                + old(self).sep().sep_bytes() + old(self).bytes().subrange(
                p as int,
                old(self).bytes().len() as int,
            ));
            assert(self.starts().len() == old(self).starts().len() + 1);
            assert forall|i: int| 0 <= i <= line implies #[trigger] self.line_start(i) == old(
                self,
            ).line_start(i) by {}
            assert(self.line_start(line + 1) == p + w);
            assert forall|i: int| line + 1 < i < self.starts().len()
                implies #[trigger] self.line_start(i) == old(self).line_start(i - 1) + w by {}
            TextBuffer::lemma_split_line(*old(self), *self, line as int, index as int);
        }
    }

    /// The hypotheses shared by the separator-insertion lemmas.
    spec fn split_ctx(pre: TextBuffer, post: TextBuffer, line: int, c: int) -> bool {
        let p = pre.line_start(line) + char_off(pre.line_bytes(line), c);
        let w = pre.sep_w();
        &&& pre.wf()
        &&& 0 <= line < pre.line_count()
        &&& 0 <= c <= pre.line_view(line).len()
        &&& post.sep() == pre.sep()
        &&& post.bytes() == pre.bytes().subrange(0, p) + pre.sep().sep_bytes()
            + pre.bytes().subrange(p, pre.bytes().len() as int)
        &&& post.starts().len() == pre.starts().len() + 1
        &&& (forall|i: int| 0 <= i <= line ==> #[trigger] post.line_start(i) == pre.line_start(i))
        &&& post.line_start(line + 1) == p + w
        &&& (forall|i: int|
            line + 1 < i < post.starts().len() ==> #[trigger] post.line_start(i) == pre.line_start(
                i - 1,
            ) + w)
    }

    /// Correctness of the separator insertion: the new table and bytes are
    /// well-formed and the line views split as described.
    #[verifier::rlimit(100)]
    #[verifier::spinoff_prover]
    #[verifier::rlimit(100)]
    #[verifier::spinoff_prover]
    proof fn lemma_split_line(pre: TextBuffer, post: TextBuffer, line: int, c: int)
        requires
            TextBuffer::split_ctx(pre, post, line, c),
            pre.bufs_wf() ==> post.bufs_wf(),
        ensures
            post.wf(),
            post.line_count() == pre.line_count() + 1,
            post.line_view(line) == pre.line_view(line).take(c),
            post.line_view(line + 1) == pre.line_view(line).skip(c),
            forall|j: int| 0 <= j < line ==> #[trigger] post.line_view(j) == pre.line_view(j),
            forall|j: int|
                line + 1 < j < pre.line_count() + 1 ==> #[trigger] post.line_view(j)
                    == pre.line_view(j - 1),
            post.last_has_sep() == pre.last_has_sep(),
    {
        let b = pre.bytes();
        let b2 = post.bytes();
        let w = pre.sep_w();
        let n = pre.line_count();
        let lb = pre.line_bytes(line);
        let ls = pre.line_start(line);
        let ce = pre.content_end(line);
        let o = char_off(lb, c);
        let p = ls + o;
        pre.lemma_line_valid(line);
        pre.lemma_line_spans(line);
        pre.lemma_col_position(line, c);
        lemma_char_off(lb, c);
        TextBuffer::lemma_sep_encode(pre.sep());
        TextBuffer::lemma_split_maps(pre, post, line, c);

        // validity of the new bytes
        valid_utf8_split(b, p);
        lemma_decode_concat(b.subrange(0, p), pre.sep().sep_bytes());
        lemma_decode_concat(
            b.subrange(0, p) + pre.sep().sep_bytes(),
            b.subrange(p, b.len() as int),
        );
        assert(b2 =~= (b.subrange(0, p) + pre.sep().sep_bytes()) + b.subrange(
            p,
            b.len() as int,
        ));
        assert(valid_utf8(b2));

        TextBuffer::lemma_split_lines_wf(pre, post, line, c);
        if w == 2 {
            TextBuffer::lemma_split_crlf(pre, post, line, c);
        }
        TextBuffer::lemma_split_boundaries(pre, post, line, c);
        TextBuffer::lemma_split_tail(pre, post, line, c);
        assert(post.wf());
        TextBuffer::lemma_split_views(pre, post, line, c);
    }

    /// Line views after the separator insertion: the split line's two halves
    /// and every other line unchanged (shifted by one index past the split).
    #[verifier::rlimit(100)]
    #[verifier::spinoff_prover]
    proof fn lemma_split_views(pre: TextBuffer, post: TextBuffer, line: int, c: int)
        requires
            TextBuffer::split_ctx(pre, post, line, c),
            post.last_has_sep() == pre.last_has_sep(),
        ensures
            post.line_view(line) == pre.line_view(line).take(c),
            post.line_view(line + 1) == pre.line_view(line).skip(c),
            forall|j: int| 0 <= j < line ==> #[trigger] post.line_view(j) == pre.line_view(j),
            forall|j: int|
                line + 1 < j < pre.line_count() + 1 ==> #[trigger] post.line_view(j)
                    == pre.line_view(j - 1),
    {
        let b = pre.bytes();
        let b2 = post.bytes();
        let w = pre.sep_w();
        let n = pre.line_count();
        let lb = pre.line_bytes(line);
        let ce = pre.content_end(line);
        let o = char_off(lb, c);
        let p = pre.line_start(line) + o;
        pre.lemma_line_valid(line);
        pre.lemma_line_spans(line);
        pre.lemma_col_position(line, c);
        lemma_char_off(lb, c);
        TextBuffer::lemma_split_maps(pre, post, line, c);

        assert forall|j: int| 0 <= j < line implies #[trigger] post.line_view(j)
            == pre.line_view(j) by {
            pre.lemma_line_valid(j);
            assert(pre.line_start(j + 1) <= pre.line_start(line) <= p);
            assert(post.content_end(j) == pre.content_end(j));
            assert(post.line_bytes(j) =~= pre.line_bytes(j));
        }
        assert forall|j: int| line + 1 < j < n + 1 implies #[trigger] post.line_view(j)
            == pre.line_view(j - 1) by {
            pre.lemma_line_valid(j - 1);
            assert(pre.line_start(j - 1) >= pre.line_start(line + 1) >= ce + w >= p);
            assert(post.line_start(j) == pre.line_start(j - 1) + w);
            assert(post.content_end(j) == pre.content_end(j - 1) + w) by {
                if j < n {
                    assert(post.line_start(j + 1) == pre.line_start(j) + w);
                }
            }
            assert(post.line_bytes(j) =~= pre.line_bytes(j - 1));
        }
        assert(post.content_end(line) == p) by {
            assert(post.line_start(line + 1) == p + w);
        }
        assert(post.line_bytes(line) =~= lb.subrange(0, o));
        assert(post.line_view(line) == pre.line_view(line).take(c));
        assert(post.content_end(line + 1) == ce + w) by {
            if line + 1 < n {
                assert(post.line_start(line + 2) == pre.line_start(line + 1) + w);
            }
        }
        assert(post.line_bytes(line + 1) =~= lb.subrange(o, lb.len() as int));
        assert(post.line_view(line + 1) == pre.line_view(line).skip(c));
    }

    /// Byte-index mappings of the separator insertion.
    proof fn lemma_split_maps(pre: TextBuffer, post: TextBuffer, line: int, c: int)
        requires
            TextBuffer::split_ctx(pre, post, line, c),
        ensures
            ({
                let b = pre.bytes();
                let b2 = post.bytes();
                let w = pre.sep_w();
                let p = pre.line_start(line) + char_off(pre.line_bytes(line), c);
                let sb = pre.sep().sep_bytes();
                &&& b2.len() == b.len() + w
                &&& (forall|k: int| #![trigger b2[k]] 0 <= k < p ==> b2[k] == b[k])
                &&& (forall|k: int| #![trigger b2[k]] p <= k < p + w ==> b2[k] == sb[k - p])
                &&& (forall|k: int| #![trigger b2[k]] p + w <= k < b2.len() ==> b2[k] == b[k - w])
                &&& pre.line_start(line) <= p <= pre.content_end(line)
                &&& (line < pre.line_count() - 1 ==> pre.content_end(line) + w <= pre.line_start(
                    line + 1,
                ))
            }),
    {
        pre.lemma_line_valid(line);
        pre.lemma_line_spans(line);
        pre.lemma_col_position(line, c);
        lemma_char_off(pre.line_bytes(line), c);
    }

    /// The separator insertion keeps the line table well-formed.
    #[verifier::rlimit(100)]
    #[verifier::spinoff_prover]
    proof fn lemma_split_lines_wf(pre: TextBuffer, post: TextBuffer, line: int, c: int)
        requires
            TextBuffer::split_ctx(pre, post, line, c),
        ensures
            lines_wf(post.bytes(), post.starts(), pre.sep_w()),
    {
        let b = pre.bytes();
        let b2 = post.bytes();
        let s = pre.starts();
        let s2 = post.starts();
        let w = pre.sep_w();
        let n = pre.line_count();
        let lb = pre.line_bytes(line);
        let ce = pre.content_end(line);
        let p = pre.line_start(line) + char_off(lb, c);
        pre.lemma_line_spans(line);
        TextBuffer::lemma_split_maps(pre, post, line, c);
        TextBuffer::lemma_sep_encode(pre.sep());
        assert forall|i: int| 0 <= i < s2.len() implies #[trigger] s2[i] as int == (if i <= line {
            s[i] as int
        } else if i == line + 1 {
            p + w
        } else {
            s[i - 1] + w
        }) by {
            if i <= line {
                assert(post.line_start(i) == pre.line_start(i));
            } else if i == line + 1 {
                assert(post.line_start(line + 1) == p + w);
            } else {
                assert(post.line_start(i) == pre.line_start(i - 1) + w);
            }
        }
        assert forall|i: int, j: int|
            #![trigger s2[i], s2[j]]
            0 <= i < j < s2.len() implies s2[i] + w <= s2[j] by {
            if j <= line {
            } else if j == line + 1 {
                assert(s2[i] == s[i] && s[i] <= s[line] <= p);
            } else {
                if i <= line {
                    assert(s[i] <= s[line] <= p);
                    assert(s[i] + w <= s[j - 1] + w);
                } else if i == line + 1 {
                    assert(s[j - 1] >= pre.line_start(line + 1) >= ce + w >= p + w);
                }
            }
        }
        assert forall|i: int| 0 <= i < s2.len() implies #[trigger] s2[i] <= b2.len() by {}
        assert forall|i: int| 1 <= i < s2.len() implies b2[#[trigger] s2[i] - 1] == 10 && (w == 2
            ==> b2[s2[i] - 2] == 13) by {
            if i <= line {
                assert(s[i] <= s[line] <= p);
                assert(b2[s[i] - 1] == b[s[i] - 1]);
                if w == 2 {
                    assert(b2[s[i] - 2] == b[s[i] - 2]);
                }
            } else if i == line + 1 {
                assert(b2[p + w - 1] == pre.sep().sep_bytes()[w - 1]);
                if w == 2 {
                    assert(b2[p + w - 2] == pre.sep().sep_bytes()[0]);
                }
            } else {
                assert(s[i - 1] >= pre.line_start(line + 1) >= ce + w >= p + w);
                assert(b2[s[i - 1] + w - 1] == b[s[i - 1] - 1]);
                if w == 2 {
                    assert(b2[s[i - 1] + w - 2] == b[s[i - 1] - 2]);
                }
            }
        }
        assert forall|k: int|
            #![trigger b2[k]]
            0 <= k < b2.len() - 1 && b2[k] == 10 implies exists|i: int|
                1 <= i < s2.len() && #[trigger] s2[i] == k + 1 by {
            if k < p {
                assert(b[k] == 10);
                if k < b.len() - 1 {
                    let i = choose|i: int| 1 <= i < s.len() && #[trigger] s[i] == k + 1;
                    assert(i <= line) by {
                        if i > line {
                            assert(s[i] >= pre.line_start(line + 1) >= ce + w > p);
                        }
                    }
                    assert(s2[i] == k + 1);
                } else {
                    assert(k == b.len() - 1 && p == b.len());
                    assert(ce == b.len() && line == n - 1) by {
                        if line < n - 1 {
                            assert(ce + w <= pre.line_start(line + 1) <= b.len());
                        }
                    }
                    assert(!pre.last_has_sep()) by {
                        if pre.last_has_sep() {
                            assert(ce == b.len() - w);
                        }
                    }
                    pre.lemma_final_newline_is_sep();
                    assert(n >= 2) by {
                        if n == 1 {
                            assert(pre.line_start(0) == 0 && pre.line_start(0) == b.len());
                        }
                    }
                    assert(s2[n - 1] == k + 1);
                }
            } else if k < p + w {
                assert(k == p + w - 1);
                assert(s2[line + 1] == k + 1);
            } else {
                assert(b[k - w] == 10);
                assert(k - w < b.len() - 1);
                let i = choose|i: int| 1 <= i < s.len() && #[trigger] s[i] == k - w + 1;
                assert(i > line) by {
                    if i <= line {
                        assert(s[i] <= s[line] <= p <= k - w);
                    }
                }
                assert(s2[i + 1] == s[i] + w);
                assert(s2[i + 1] == k + 1);
            }
        }
    }

    /// The separator insertion keeps strict CRLF pairing.
    #[verifier::rlimit(100)]
    #[verifier::spinoff_prover]
    proof fn lemma_split_crlf(pre: TextBuffer, post: TextBuffer, line: int, c: int)
        requires
            TextBuffer::split_ctx(pre, post, line, c),
            pre.sep_w() == 2,
        ensures
            crlf_strict(post.bytes()),
    {
        let b = pre.bytes();
        let b2 = post.bytes();
        let w = pre.sep_w();
        let n = pre.line_count();
        let lb = pre.line_bytes(line);
        let ls = pre.line_start(line);
        let ce = pre.content_end(line);
        let p = ls + char_off(lb, c);
        pre.lemma_line_spans(line);
        TextBuffer::lemma_split_maps(pre, post, line, c);
        TextBuffer::lemma_sep_encode(pre.sep());
        assert(crlf_strict(b));
        assert(b2[p] == 13 && b2[p + 1] == 10);
        assert forall|q: int|
            #![trigger b2[q]]
            0 <= q < b2.len() && b2[q] == 10 implies q >= 1 && b2[q - 1] == 13 by {
            if q < p {
                assert(b[q] == 10 && b[q - 1] == 13);
            } else if q < p + w {
                assert(q == p + 1);
            } else {
                assert(b[q - w] == 10);
                assert(q - w >= 1 && b[q - w - 1] == 13);
                if q - w - 1 >= p {
                    assert(b2[q - 1] == b[q - w - 1]);
                } else {
                    assert(q - w == p);
                    if p < ce {
                        pre.lemma_no_sep_in_content(line, p);
                        assert(false);
                    } else {
                        assert(p == ce);
                        assert(ce < pre.line_end(line)) by {
                            if ce == pre.line_end(line) {
                                assert(line == n - 1 && !pre.last_has_sep());
                                assert(ce == b.len());
                                assert(q - w < b.len());
                            }
                        }
                        assert(b[ce] == 13);
                        assert(false);
                    }
                }
            }
        }
        assert forall|q: int|
            #![trigger b2[q]]
            0 <= q < b2.len() && b2[q] == 13 implies q + 1 < b2.len() && b2[q + 1] == 10 by {
            if q < p {
                assert(b[q] == 13);
                assert(q + 1 < b.len() && b[q + 1] == 10);
                if q + 1 < p {
                    assert(b2[q + 1] == b[q + 1]);
                } else {
                    assert(q == p - 1);
                    if p - 1 >= ce {
                        assert(p == ce && q >= ce);
                        assert(false);
                    } else if p - 1 >= ls {
                        pre.lemma_no_sep_in_content(line, p - 1);
                        assert(false);
                    } else {
                        assert(p == ls);
                        if line >= 1 {
                            assert(b[ls - 1] == 10);
                            assert(false);
                        } else {
                            assert(ls == 0);
                            assert(false);
                        }
                    }
                }
            } else if q < p + w {
                assert(q == p);
            } else {
                assert(b[q - w] == 13);
                assert(q - w + 1 < b.len() && b[q - w + 1] == 10);
                assert(b2[q + 1] == b[q - w + 1]);
            }
        }
    }

    /// Every line start after the separator insertion is a character boundary.
    #[verifier::rlimit(100)]
    #[verifier::spinoff_prover]
    proof fn lemma_split_boundaries(pre: TextBuffer, post: TextBuffer, line: int, c: int)
        requires
            TextBuffer::split_ctx(pre, post, line, c),
            valid_utf8(post.bytes()),
        ensures
            forall|i: int|
                0 <= i < post.starts().len() ==> is_char_boundary(
                    post.bytes(),
                    #[trigger] post.line_start(i),
                ),
    {
        let b = pre.bytes();
        let b2 = post.bytes();
        let s = pre.starts();
        let s2 = post.starts();
        let w = pre.sep_w();
        let n = pre.line_count();
        let lb = pre.line_bytes(line);
        let ce = pre.content_end(line);
        let o = char_off(lb, c);
        let p = pre.line_start(line) + o;
        pre.lemma_line_spans(line);
        pre.lemma_col_position(line, c);
        TextBuffer::lemma_split_maps(pre, post, line, c);
        TextBuffer::lemma_sep_encode(pre.sep());
        assert forall|i: int| 0 <= i < s2.len() implies is_char_boundary(
            b2,
            #[trigger] post.line_start(i),
        ) by {
            let q = post.line_start(i);
            if q == b2.len() {
                is_char_boundary_start_end_of_seq(b2);
            } else {
                assert(!is_continuation_byte(b2[q])) by {
                    if i <= line {
                        assert(q == pre.line_start(i));
                        if q < p {
                            assert(b2[q] == b[q]);
                            is_char_boundary_iff_not_is_continuation_byte(b, q);
                        } else {
                            assert(i == line && q == p && o == 0);
                            assert(b2[p] == pre.sep().sep_bytes()[0]);
                        }
                    } else if i == line + 1 {
                        assert(q == p + w);
                        assert(b2[q] == b[p]);
                        is_char_boundary_iff_not_is_continuation_byte(b, p);
                    } else {
                        assert(q == pre.line_start(i - 1) + w);
                        assert(pre.line_start(i - 1) >= pre.line_start(line + 1) >= ce + w >= p);
                        assert(b2[q] == b[pre.line_start(i - 1)]);
                        assert(pre.line_start(i - 1) < b.len());
                        is_char_boundary_iff_not_is_continuation_byte(b, pre.line_start(i - 1));
                    }
                }
                is_char_boundary_iff_not_is_continuation_byte(b2, q);
            }
        }
    }

    /// The separator insertion keeps the last line's trailing-separator state.
    #[verifier::rlimit(100)]
    #[verifier::spinoff_prover]
    proof fn lemma_split_tail(pre: TextBuffer, post: TextBuffer, line: int, c: int)
        requires
            TextBuffer::split_ctx(pre, post, line, c),
        ensures
            post.last_has_sep() == pre.last_has_sep(),
    {
        let b = pre.bytes();
        let b2 = post.bytes();
        let w = pre.sep_w();
        let n = pre.line_count();
        let n2 = post.line_count();
        let lb = pre.line_bytes(line);
        let ce = pre.content_end(line);
        let p = pre.line_start(line) + char_off(lb, c);
        pre.lemma_line_spans(line);
        TextBuffer::lemma_split_maps(pre, post, line, c);
        TextBuffer::lemma_sep_encode(pre.sep());
        if line == n - 1 {
            assert(post.line_start(n2 - 1) == p + w);
            if pre.last_has_sep() {
                assert(ce == b.len() - w);
                assert(b2[b2.len() - 1] == b[b.len() - 1]);
                if w == 2 {
                    assert(b2[b2.len() - 2] == b[b.len() - 2]);
                }
                assert(b2.len() - (p + w) >= w) by {
                    assert(p <= ce);
                }
            } else {
                assert(ce == b.len());
                if post.last_has_sep() {
                    assert(b2[b2.len() - 1] == 10);
                    assert(b2.len() - (p + w) >= w);
                    assert(b2.len() - 1 >= p + w);
                    assert(b2[b2.len() - 1] == b[b.len() - 1]);
                    pre.lemma_final_newline_is_sep();
                    assert(pre.line_start(n - 1) == b.len());
                    assert(p >= pre.line_start(line));
                    assert(p == b.len());
                    assert(b2.len() - (p + w) == 0);
                    assert(false);
                }
            }
        } else {
            assert(post.line_start(n2 - 1) == pre.line_start(n - 1) + w);
            assert(pre.line_start(n - 1) >= pre.line_start(line + 1) >= ce + w >= p);
            assert(b2.len() - post.line_start(n2 - 1) == b.len() - pre.line_start(n - 1));
            if b.len() > pre.line_start(n - 1) {
                assert(b2[b2.len() - 1] == b[b.len() - 1]);
                if b.len() - pre.line_start(n - 1) >= 2 {
                    assert(b2[b2.len() - 2] == b[b.len() - 2]);
                }
            }
        }
    }

    /// Deletes exactly the separator at the end of `line`, merging it with
    /// the following line; later lines shift up by one.
    #[verifier::rlimit(100)]
    pub fn remove_line_sep(&mut self, line: usize)
        requires
            old(self).wf(),
            line < old(self).line_count() - 1,
        ensures
            final(self).wf(),
            final(self).sep() == old(self).sep(),
            final(self).line_count() == old(self).line_count() - 1,
            final(self).line_view(line as int) == old(self).line_view(line as int) + old(
                self,
            ).line_view(line + 1),
            forall|j: int|
                0 <= j < line ==> #[trigger] final(self).line_view(j) == old(self).line_view(j),
            forall|j: int|
                line < j < old(self).line_count() - 1 ==> #[trigger] final(self).line_view(j)
                    == old(self).line_view(j + 1),
            final(self).last_has_sep() == old(self).last_has_sep(),
            final(self).bytes().len() == old(self).bytes().len() - old(self).sep_w(),
    {
        proof {
            old(self).lemma_line_valid(line as int);
            old(self).lemma_line_spans(line as int);
        }
        let w = self.line_sep.width();
        let start = self.lines.get_one(line);
        let rawlen = self.raw_line_len(line);
        self.chars.remove(start + rawlen - w, w);
        let nl = self.lines.len();
        self.lines.remove(line + 1, 1);
        proof {
            assert forall|i: int| line + 1 <= i < nl - 1 implies self.lines@[i] >= w by {
                assert(self.lines@[i] == old(self).starts()[i + 1]);
            }
        }
        self.lines.decrement_range_by(line + 1, nl - 1, w);
        proof {
            assert forall|i: int| 0 <= i <= line implies #[trigger] self.line_start(i) == old(
                self,
            ).line_start(i) by {}
            assert forall|i: int| line < i < self.starts().len()
                implies #[trigger] self.line_start(i) == old(self).line_start(i + 1) - old(
                self,
            ).sep_w() by {}
            assert(self.bytes() =~= old(self).bytes().subrange(
                0,
                old(self).line_end(line as int) - old(self).sep_w(),
            ) + old(self).bytes().subrange(
                old(self).line_end(line as int),
                old(self).bytes().len() as int,
            ));
            TextBuffer::lemma_join_line(*old(self), *self, line as int);
        }
    }

    /// Deletes the whole raw line `line` (content and separator) and its
    /// start entry; the single remaining line of a one-line buffer is merely
    /// emptied.
    #[verifier::rlimit(100)]
    #[verifier::spinoff_prover]
    pub fn remove_line(&mut self, line: usize)
        requires
            old(self).wf(),
            line < old(self).line_count(),
        ensures
            final(self).wf(),
            final(self).sep() == old(self).sep(),
            old(self).line_count() > 1 ==> final(self).line_count() == old(self).line_count() - 1
                && (forall|j: int|
                0 <= j < line ==> #[trigger] final(self).line_view(j) == old(self).line_view(j))
                && (forall|j: int|
                line <= j < old(self).line_count() - 1 ==> #[trigger] final(self).line_view(j)
                    == old(self).line_view(j + 1)),
            old(self).line_count() == 1 ==> final(self).line_count() == 1
                && final(self).line_view(0) == Seq::<char>::empty()
                && final(self).bytes() == Seq::<u8>::empty(),
            final(self).bytes().len() == old(self).bytes().len() - (old(self).line_end(line as int)
                - old(self).line_start(line as int)),
    {
        proof {
            old(self).lemma_line_valid(line as int);
            old(self).lemma_line_spans(line as int);
        }
        let start = self.lines.get_one(line);
        let rawlen = self.raw_line_len(line);
        self.chars.remove(start, rawlen);
        let nl = self.lines.len();
        if nl > 1 {
            self.lines.remove(line, 1);
            proof {
                assert forall|i: int| line <= i < nl - 1 implies self.lines@[i] >= rawlen by {
                    assert(self.lines@[i] == old(self).starts()[i + 1]);
                    assert(old(self).line_start(i + 1) >= old(self).line_start(line + 1));
                }
            }
            self.lines.decrement_range_by(line, nl - 1, rawlen);
            proof {
                assert forall|i: int| 0 <= i < line implies #[trigger] self.line_start(i) == old(
                    self,
                ).line_start(i) by {}
                assert forall|i: int| line <= i < self.starts().len()
                    implies #[trigger] self.line_start(i) == old(self).line_start(i + 1) - (old(
                    self,
                ).line_end(line as int) - old(self).line_start(line as int)) by {
                    assert(old(self).line_end(line as int) == old(self).line_start(line + 1));
                }
                assert(self.bytes() =~= old(self).bytes().subrange(
                    0,
                    old(self).line_start(line as int),
                ) + old(self).bytes().subrange(
                    old(self).line_end(line as int),
                    old(self).bytes().len() as int,
                ));
                TextBuffer::lemma_drop_line(*old(self), *self, line as int);
            }
        } else {
            proof {
                let b2 = self.bytes();
                let s2 = self.starts();
                assert(b2 =~= Seq::<u8>::empty());
                assert(s2 == old(self).starts());
                assert(s2[0] == 0);
                assert(lines_wf(b2, s2, self.sep_w()));
                assert(valid_utf8(b2));
                assert forall|i: int| 0 <= i < s2.len() implies is_char_boundary(
                    b2,
                    #[trigger] self.line_start(i),
                ) by {
                    is_char_boundary_start_end_of_seq(b2);
                }
                assert(self.line_bytes(0) =~= Seq::<u8>::empty());
                assert(self.line_view(0) =~= Seq::<char>::empty());
            }
        }
    }

    /// Whether the buffer ends with a whole separator belonging to the last
    /// line.
    pub fn has_trailing_sep(&self) -> (r: bool)
        requires
            self.wf(),
        ensures
            r == self.last_has_sep(),
    {
        let total = self.chars.len();
        let n = self.lines.len();
        let sl = self.lines.get_one(n - 1);
        let w = self.line_sep.width();
        if total >= 1 && total - sl >= w {
            if self.chars.get_one(total - 1) == 10 {
                if w == 2 {
                    self.chars.get_one(total - 2) == 13
                } else {
                    true
                }
            } else {
                false
            }
        } else {
            false
        }
    }

    /// Appends a separator to a buffer whose last line lacks one; no line's
    /// visible characters change.
    #[verifier::rlimit(100)]
    #[verifier::spinoff_prover]
    fn append_sep(&mut self)
        requires
            old(self).wf(),
            !old(self).last_has_sep(),
            old(self).bytes().len() + old(self).sep_w() <= usize::MAX,
        ensures
            final(self).wf(),
            final(self).sep() == old(self).sep(),
            final(self).line_count() == old(self).line_count(),
            forall|j: int|
                0 <= j < old(self).line_count() ==> #[trigger] final(self).line_view(j) == old(
                    self,
                ).line_view(j),
            final(self).last_has_sep(),
            final(self).bytes().len() == old(self).bytes().len() + old(self).sep_w(),
    {
        proof {
            TextBuffer::lemma_sep_encode(old(self).sep());
        }
        let sep_str = self.line_sep.as_str();
        self.chars.push_back(sep_str.as_bytes());
        proof {
            let pre = *old(self);
            let post = *self;
            let b = pre.bytes();
            let b2 = post.bytes();
            let s = pre.starts();
            let w = pre.sep_w();
            let n = pre.line_count();
            let sb = pre.sep().sep_bytes();
            pre.lemma_line_valid(n - 1);
            assert(b2.len() == b.len() + w);
            assert forall|k: int| 0 <= k < b.len() implies #[trigger] b2[k] == b[k] by {}
            assert(b2[b.len() as int] == sb[0]);
            assert(b2[b2.len() - 1] == 10);
            if w == 2 {
                assert(b2[b2.len() - 2] == 13);
            }
            assert(valid_utf8(b2)) by {
                lemma_decode_concat(b, sb);
                assert(b2 =~= b + sb);
            }
            assert(lines_wf(b2, s, w)) by {
                assert forall|k: int|
                    #![trigger b2[k]]
                    0 <= k < b2.len() - 1 && b2[k] == 10 implies exists|i: int|
                        1 <= i < s.len() && #[trigger] s[i] == k + 1 by {
                    if k < b.len() - 1 {
                        assert(b[k] == 10);
                    } else if k == b.len() - 1 {
                        assert(b[k] == 10);
                        pre.lemma_final_newline_is_sep();
                        assert(pre.line_start(n - 1) == b.len());
                        assert(n >= 2) by {
                            if n == 1 {
                                assert(pre.line_start(0) == 0 && pre.line_start(0) == b.len());
                                assert(k == -1);
                            }
                        }
                        assert(s[n - 1] == k + 1);
                    } else {
                        // inside the appended separator: only its final byte
                        // is a line feed, and that byte is the buffer's last
                        assert(w == 2 && k == b.len() as int);
                        assert(b2[k] == 13);
                    }
                }
            }
            if w == 2 {
                assert(crlf_strict(b2)) by {
                    assert forall|q: int|
                        #![trigger b2[q]]
                        0 <= q < b2.len() && b2[q] == 10 implies q >= 1 && b2[q - 1] == 13 by {
                        if q < b.len() {
                            assert(b[q] == 10 && b[q - 1] == 13);
                        } else {
                            assert(q == b2.len() - 1);
                        }
                    }
                    assert forall|q: int|
                        #![trigger b2[q]]
                        0 <= q < b2.len() && b2[q] == 13 implies q + 1 < b2.len() && b2[q + 1]
                        == 10 by {
                        if q < b.len() {
                            assert(b[q] == 13);
                            assert(q + 1 < b.len() && b[q + 1] == 10);
                            assert(b2[q + 1] == b[q + 1]);
                        } else {
                            assert(q == b.len() as int);
                        }
                    }
                }
            }
            assert forall|i: int| 0 <= i < n implies is_char_boundary(
                b2,
                #[trigger] post.line_start(i),
            ) by {
                let q = post.line_start(i);
                assert(post.line_start(i) == pre.line_start(i));
                assert(is_char_boundary(b, q));
                if q < b.len() {
                    assert(b2[q] == b[q]);
                    is_char_boundary_iff_not_is_continuation_byte(b, q);
                    is_char_boundary_iff_not_is_continuation_byte(b2, q);
                } else {
                    assert(q == b.len() as int);
                    assert(b2[q] == sb[0]);
                    is_char_boundary_iff_not_is_continuation_byte(b2, q);
                }
            }
            assert(post.wf());
            assert(post.last_has_sep()) by {
                assert(b2.len() - post.line_start(n - 1) >= w);
            }
            assert forall|j: int| 0 <= j < n implies #[trigger] post.line_view(j)
                == pre.line_view(j) by {
                pre.lemma_line_valid(j);
                assert(post.content_end(j) == pre.content_end(j)) by {
                    if j == n - 1 {
                        assert(pre.content_end(j) == b.len());
                        assert(post.content_end(j) == b2.len() - w);
                    } else {
                        assert(post.line_start(j + 1) == pre.line_start(j + 1));
                    }
                }
                assert(post.line_bytes(j) =~= pre.line_bytes(j));
            }
        }
    }

    /// Inserts an empty line at row `row` (possibly one past the last line,
    /// which appends); every existing line keeps its characters.
    #[verifier::rlimit(100)]
    #[verifier::spinoff_prover]
    pub fn insert_empty_line(&mut self, row: usize)
        requires
            old(self).wf(),
            row <= old(self).line_count(),
            old(self).bytes().len() + 2 * old(self).sep_w() <= usize::MAX,
        ensures
            final(self).wf(),
            final(self).sep() == old(self).sep(),
            final(self).line_count() == old(self).line_count() + 1,
            final(self).line_view(row as int) == Seq::<char>::empty(),
            forall|j: int|
                0 <= j < row ==> #[trigger] final(self).line_view(j) == old(self).line_view(j),
            forall|j: int|
                row < j < old(self).line_count() + 1 ==> #[trigger] final(self).line_view(j)
                    == old(self).line_view(j - 1),
    {
        let n = self.lines.len();
        if row < n {
            self.split_line_at_index(row, 0);
            proof {
                assert(old(self).line_view(row as int).take(0) =~= Seq::<char>::empty());
                assert(old(self).line_view(row as int).skip(0) =~= old(self).line_view(
                    row as int,
                ));
            }
        } else {
            if !self.has_trailing_sep() {
                self.append_sep();
            }
            let ghost mid = *self;
            let ll = self.line_len(n - 1);
            self.split_line_at_index(n - 1, ll);
            proof {
                assert(mid.line_view(n - 1 as int).take(mid.line_view(n - 1 as int).len() as int)
                    =~= mid.line_view(n - 1 as int));
                assert(mid.line_view(n - 1 as int).skip(mid.line_view(n - 1 as int).len() as int)
                    =~= Seq::<char>::empty());
            }
        }
    }

    /// Removes the inclusive character range from `start` to `end`.  Within
    /// one line the bounded span is removed, and the trailing separator too
    /// when the range reaches one past the line's last character; across
    /// lines the start line's tail and the end line's head go, every fully
    /// enclosed line goes, and the two remaining lines are joined.
    #[verifier::rlimit(100)]
    #[verifier::spinoff_prover]
    pub fn remove_by_range(&mut self, start: LinePos, end: LinePos)
        requires
            old(self).wf(),
            start.line <= end.line < old(self).line_count(),
            start.col <= old(self).line_view(start.line as int).len(),
            end.col <= old(self).line_view(end.line as int).len(),
            start.line == end.line ==> start.col <= end.col,
        ensures
            final(self).wf(),
            final(self).sep() == old(self).sep(),
            // within one line (and no separator joining), the bytes are the
            // same splice the line-level clause describes
            ({
                let lv = old(self).line_view(start.line as int);
                let lb = old(self).line_bytes(start.line as int);
                let ls = old(self).line_start(start.line as int);
                let n = old(self).line_count();
                let cnt = if end.col + 1 - start.col <= lv.len() - start.col {
                    end.col + 1 - start.col
                } else {
                    lv.len() - start.col
                };
                (start.line == end.line && !(end.col == lv.len() && start.line < n - 1))
                    ==> final(self).bytes() == old(self).bytes().subrange(
                    0,
                    ls + char_off(lb, start.col as int),
                ) + old(self).bytes().subrange(
                    ls + char_off(lb, start.col + cnt),
                    old(self).bytes().len() as int,
                )
            }),
            ({
                let lv = old(self).line_view(start.line as int);
                let ev = old(self).line_view(end.line as int);
                let n = old(self).line_count();
                if start.line == end.line {
                    let cnt = if end.col + 1 - start.col <= lv.len() - start.col {
                        end.col + 1 - start.col
                    } else {
                        lv.len() - start.col
                    };
                    if end.col == lv.len() && start.line < n - 1 {
                        // the separator goes too, joining with the next line
                        &&& final(self).line_count() == n - 1
                        &&& final(self).line_view(start.line as int) == lv.take(start.col as int)
                            + old(self).line_view(start.line + 1)
                        &&& (forall|j: int|
                            0 <= j < start.line ==> #[trigger] final(self).line_view(j) == old(
                                self,
                            ).line_view(j))
                        &&& (forall|j: int|
                            start.line < j < n - 1 ==> #[trigger] final(self).line_view(j) == old(
                                self,
                            ).line_view(j + 1))
                    } else {
                        &&& final(self).line_count() == n
                        &&& final(self).line_view(start.line as int) == lv.take(start.col as int)
                            + lv.skip(start.col + cnt)
                        &&& (forall|j: int|
                            0 <= j < n && j != start.line ==> #[trigger] final(self).line_view(j)
                                == old(self).line_view(j))
                    }
                } else {
                    let head = if end.col + 1 <= ev.len() {
                        end.col + 1
                    } else {
                        ev.len() as int
                    };
                    let gone = end.line - start.line;
                    &&& final(self).line_count() == n - gone
                    &&& final(self).line_view(start.line as int) == lv.take(start.col as int)
                        + ev.skip(head)
                    &&& (forall|j: int|
                        0 <= j < start.line ==> #[trigger] final(self).line_view(j) == old(
                            self,
                        ).line_view(j))
                    &&& (forall|j: int|
                        start.line < j < n - gone ==> #[trigger] final(self).line_view(j) == old(
                            self,
                        ).line_view(j + gone))
                }
            }),
    {
        let n = self.lines.len();
        if start.line == end.line {
            let ll = self.line_len(start.line);
            let want = end.col - start.col;
            let avail = ll - start.col;
            let cnt = if want < avail {
                want + 1
            } else {
                avail
            };
            self.remove_from_line(start.line, start.col, cnt);
            if end.col == ll && start.line + 1 < n {
                self.remove_line_sep(start.line);
                proof {
                    assert(old(self).line_view(start.line as int).take(start.col as int) + old(
                        self,
                    ).line_view(start.line as int).skip(start.col + cnt) =~= old(self).line_view(
                        start.line as int,
                    ).take(start.col as int));
                }
            }
        } else {
            let ghost pre = *old(self);
            let ll = self.line_len(start.line);
            self.remove_from_line(start.line, start.col, ll - start.col);
            let endlen = self.line_len(end.line);
            let head = if end.col < endlen {
                end.col + 1
            } else {
                endlen
            };
            self.remove_from_line(end.line, 0, head);
            let ghost trimmed = *self;
            let mut removed: usize = 0;
            let gone = end.line - start.line;
            while removed < gone - 1
                invariant
                    self.wf(),
                    self.sep() == pre.sep(),
                    removed <= gone - 1,
                    gone == end.line - start.line,
                    start.line < end.line < pre.line_count(),
                    self.line_count() == pre.line_count() - removed,
                    start.line + 1 < self.line_count(),
                    self.line_view(start.line as int) == trimmed.line_view(start.line as int),
                    forall|j: int|
                        0 <= j < start.line ==> #[trigger] self.line_view(j) == trimmed.line_view(
                            j,
                        ),
                    forall|j: int|
                        start.line < j < self.line_count() ==> #[trigger] self.line_view(j)
                            == trimmed.line_view(j + removed),
                    trimmed.line_count() == pre.line_count(),
                decreases gone - 1 - removed,
            {
                self.remove_line(start.line + 1);
                removed = removed + 1;
            }
            self.remove_line_sep(start.line);
            proof {
                assert(pre.line_view(start.line as int).take(start.col as int) + pre.line_view(
                    start.line as int,
                ).skip(start.col + (ll - start.col)) =~= pre.line_view(start.line as int).take(
                    start.col as int,
                ));
                assert(pre.line_view(end.line as int).take(0) + pre.line_view(end.line as int).skip(
                    0 + head,
                ) =~= pre.line_view(end.line as int).skip(head as int));
            }
        }
    }

    /// The hypotheses shared by the whole-line-removal lemmas (more than one
    /// line present).
    spec fn drop_ctx(pre: TextBuffer, post: TextBuffer, line: int) -> bool {
        let ls = pre.line_start(line);
        let e = pre.line_end(line);
        let rl = e - ls;
        &&& pre.wf()
        &&& pre.line_count() > 1
        &&& 0 <= line < pre.line_count()
        &&& post.sep() == pre.sep()
        &&& post.bytes() == pre.bytes().subrange(0, ls) + pre.bytes().subrange(
            e,
            pre.bytes().len() as int,
        )
        &&& post.starts().len() == pre.starts().len() - 1
        &&& (forall|i: int| 0 <= i < line ==> #[trigger] post.line_start(i) == pre.line_start(i))
        &&& (forall|i: int|
            line <= i < post.starts().len() ==> #[trigger] post.line_start(i) == pre.line_start(
                i + 1,
            ) - rl)
    }

    /// Byte-index mappings of the whole-line removal.
    proof fn lemma_drop_maps(pre: TextBuffer, post: TextBuffer, line: int)
        requires
            TextBuffer::drop_ctx(pre, post, line),
        ensures
            ({
                let b = pre.bytes();
                let b2 = post.bytes();
                let ls = pre.line_start(line);
                let e = pre.line_end(line);
                let rl = e - ls;
                &&& b2.len() == b.len() - rl
                &&& (forall|k: int| #![trigger b2[k]] 0 <= k < ls ==> b2[k] == b[k])
                &&& (forall|k: int| #![trigger b2[k]] ls <= k < b2.len() ==> b2[k] == b[k + rl])
                &&& (line < pre.line_count() - 1 ==> e == pre.line_start(line + 1) && rl
                    >= pre.sep_w() && b[e - 1] == 10 && (pre.sep_w() == 2 ==> b[e - 2] == 13))
                &&& (line == pre.line_count() - 1 ==> e == b.len() && b[ls - 1] == 10 && ls >= 1)
            }),
    {
        pre.lemma_line_valid(line);
        pre.lemma_line_spans(line);
        if line < pre.line_count() - 1 {
            assert(pre.line_start(line) + pre.sep_w() <= pre.line_start(line + 1));
        } else {
            // the last line of a multi-line buffer starts after a separator
            assert(pre.line_start(line - 1) + pre.sep_w() <= pre.line_start(line));
            assert(pre.bytes()[pre.line_start(line) - 1] == 10);
        }
    }

    /// Correctness of the whole-line removal for a multi-line buffer.
    #[verifier::rlimit(100)]
    #[verifier::spinoff_prover]
    proof fn lemma_drop_line(pre: TextBuffer, post: TextBuffer, line: int)
        requires
            TextBuffer::drop_ctx(pre, post, line),
            pre.bufs_wf() ==> post.bufs_wf(),
        ensures
            post.wf(),
            post.line_count() == pre.line_count() - 1,
            forall|j: int| 0 <= j < line ==> #[trigger] post.line_view(j) == pre.line_view(j),
            forall|j: int|
                line <= j < pre.line_count() - 1 ==> #[trigger] post.line_view(j) == pre.line_view(
                    j + 1,
                ),
    {
        let b = pre.bytes();
        let b2 = post.bytes();
        let w = pre.sep_w();
        let ls = pre.line_start(line);
        let e = pre.line_end(line);
        pre.lemma_line_valid(line);
        TextBuffer::lemma_drop_maps(pre, post, line);
        assert(valid_utf8(b2)) by {
            lemma_mid_subrange_valid(b, e, b.len() as int);
            assert(b.subrange(e, b.len() as int) =~= b.subrange(e, b.len() as int).subrange(
                0,
                b.len() - e,
            ));
            valid_utf8_split(b, ls);
            lemma_decode_concat(b.subrange(0, ls), b.subrange(e, b.len() as int));
            assert(b2 =~= b.subrange(0, ls) + b.subrange(e, b.len() as int));
        }
        TextBuffer::lemma_drop_lines_wf(pre, post, line);
        if w == 2 {
            TextBuffer::lemma_drop_crlf(pre, post, line);
        }
        TextBuffer::lemma_drop_boundaries(pre, post, line);
        assert(post.wf());
        TextBuffer::lemma_drop_views(pre, post, line);
    }

    /// The whole-line removal keeps the line table well-formed.
    #[verifier::rlimit(100)]
    #[verifier::spinoff_prover]
    proof fn lemma_drop_lines_wf(pre: TextBuffer, post: TextBuffer, line: int)
        requires
            TextBuffer::drop_ctx(pre, post, line),
        ensures
            lines_wf(post.bytes(), post.starts(), pre.sep_w()),
    {
        let b = pre.bytes();
        let b2 = post.bytes();
        let s = pre.starts();
        let s2 = post.starts();
        let w = pre.sep_w();
        let n = pre.line_count();
        let ls = pre.line_start(line);
        let e = pre.line_end(line);
        let rl = e - ls;
        pre.lemma_line_spans(line);
        TextBuffer::lemma_drop_maps(pre, post, line);
        assert forall|i: int| 0 <= i < s2.len() implies #[trigger] s2[i] as int == (if i < line {
            s[i] as int
        } else {
            s[i + 1] - rl
        }) by {
            if i < line {
                assert(post.line_start(i) == pre.line_start(i));
            } else {
                assert(post.line_start(i) == pre.line_start(i + 1) - rl);
            }
        }
        assert(s2[0] == 0) by {
            if line == 0 {
                assert(s2[0] as int == s[1] - rl);
                assert(e == pre.line_start(1));
            }
        }
        assert forall|i: int, j: int|
            #![trigger s2[i], s2[j]]
            0 <= i < j < s2.len() implies s2[i] + w <= s2[j] by {
            if i < line && j >= line {
                assert(line < n - 1);
                assert(s[i] + w <= s[j + 1]);
                assert(s[i] <= s[line] == ls);
                assert(s[j + 1] >= s[line + 1] == e);
            }
        }
        assert forall|i: int| 0 <= i < s2.len() implies #[trigger] s2[i] <= b2.len() by {
            if i < line {
                assert(s[i] + w <= s[line]);
                assert(ls <= e);
            }
        }
        assert forall|i: int| 1 <= i < s2.len() implies b2[#[trigger] s2[i] - 1] == 10 && (w == 2
            ==> b2[s2[i] - 2] == 13) by {
            if i < line {
                assert(s[i] <= s[line] == ls);
                assert(b2[s[i] - 1] == b[s[i] - 1]);
                if w == 2 {
                    assert(b2[s[i] - 2] == b[s[i] - 2]);
                }
            } else {
                assert(line < n - 1);
                if i == line {
                    // the shifted entry lands on the removed line's old start,
                    // which follows the previous line's separator
                    assert(s2[i] as int == s[line + 1] - rl == ls);
                    assert(b2[ls - 1] == b[ls - 1]);
                    assert(b[s[line] as int - 1] == 10);
                    if w == 2 {
                        assert(b2[ls - 2] == b[ls - 2]);
                    }
                } else {
                    assert(s[i + 1] >= s[line + 1] + w == e + w);
                    assert(b2[s[i + 1] - rl - 1] == b[s[i + 1] - 1]);
                    if w == 2 {
                        assert(b2[s[i + 1] - rl - 2] == b[s[i + 1] - 2]);
                    }
                }
            }
        }
        assert forall|k: int|
            #![trigger b2[k]]
            0 <= k < b2.len() - 1 && b2[k] == 10 implies exists|i: int|
                1 <= i < s2.len() && #[trigger] s2[i] == k + 1 by {
            if k < ls {
                assert(b[k] == 10);
                assert(k < b.len() - 1) by {
                    if line < n - 1 {
                        assert(ls + w <= s[line + 1] <= b.len());
                        assert(k + 1 <= ls);
                    } else {
                        assert(b2.len() == ls);
                        assert(k + 1 <= ls);
                    }
                }
                let i = choose|i: int| 1 <= i < s.len() && #[trigger] s[i] == k + 1;
                if i < line {
                    assert(s2[i] == k + 1);
                } else if i == line {
                    // the removed line's start reappears as the next line's
                    // new start
                    assert(s[line] == k + 1);
                    assert(line < n - 1) by {
                        if line == n - 1 {
                            assert(k + 1 == ls && k < b2.len() - 1 && b2.len() == ls);
                        }
                    }
                    assert(s2[line] as int == s[line + 1] - rl == ls == k + 1);
                    assert(1 <= line < s2.len());
                } else {
                    assert(s[i] >= s[line + 1] == e || line == n - 1);
                    if line == n - 1 {
                        assert(s[i] <= s[n - 1] == ls);
                        assert(s[i] == k + 1 <= ls);
                        assert(i < line);
                    } else {
                        assert(s[i] == k + 1 <= ls < e);
                    }
                    assert(false);
                }
            } else {
                assert(line < n - 1) by {
                    if line == n - 1 {
                        assert(b2.len() == ls);
                        assert(k < ls);
                    }
                }
                assert(b[k + rl] == 10);
                assert(k + rl < b.len() - 1);
                let i = choose|i: int| 1 <= i < s.len() && #[trigger] s[i] == k + rl + 1;
                assert(i > line + 1) by {
                    if i <= line {
                        assert(s[i] <= s[line] == ls <= k);
                    } else if i == line + 1 {
                        assert(line < n - 1);
                        assert(s[line + 1] == e == ls + rl);
                        assert(k + rl + 1 == e);
                        assert(k + 1 == ls);
                        assert(k >= ls);
                    }
                }
                assert(line < i - 1 < s2.len() + 1);
                assert(i - 1 < s2.len()) by {
                    assert(i < s.len());
                }
                assert(s2[i - 1] == s[i] - rl == k + 1);
                assert(i - 1 >= 1);
            }
        }
    }

    /// The whole-line removal keeps strict CRLF pairing.
    #[verifier::rlimit(100)]
    #[verifier::spinoff_prover]
    proof fn lemma_drop_crlf(pre: TextBuffer, post: TextBuffer, line: int)
        requires
            TextBuffer::drop_ctx(pre, post, line),
            pre.sep_w() == 2,
        ensures
            crlf_strict(post.bytes()),
    {
        let b = pre.bytes();
        let b2 = post.bytes();
        let w = pre.sep_w();
        let n = pre.line_count();
        let ls = pre.line_start(line);
        let e = pre.line_end(line);
        let rl = e - ls;
        pre.lemma_line_spans(line);
        TextBuffer::lemma_drop_maps(pre, post, line);
        assert(crlf_strict(b));
        assert forall|q: int|
            #![trigger b2[q]]
            0 <= q < b2.len() && b2[q] == 10 implies q >= 1 && b2[q - 1] == 13 by {
            if q < ls {
                assert(b[q] == 10 && b[q - 1] == 13);
            } else {
                assert(line < n - 1) by {
                    if line == n - 1 {
                        assert(b2.len() == ls);
                    }
                }
                assert(b[q + rl] == 10);
                assert(q + rl >= 1 && b[q + rl - 1] == 13);
                assert(q + rl - 1 >= e) by {
                    if q + rl == e {
                        // the byte right after the removed span cannot be a
                        // line feed: it would follow the separator's line feed
                        assert(q == ls);
                        assert(line < n - 1) by {
                            if line == n - 1 {
                                assert(e == b.len());
                                assert(q + rl < b.len());
                            }
                        }
                        assert(b[e - 1] == 10);
                        assert(b[e] == 10);
                        assert(b[e - 1] == 13);
                    }
                }
                assert(b2[q - 1] == b[q + rl - 1]);
            }
        }
        assert forall|q: int|
            #![trigger b2[q]]
            0 <= q < b2.len() && b2[q] == 13 implies q + 1 < b2.len() && b2[q + 1] == 10 by {
            if q < ls {
                assert(b[q] == 13);
                assert(q + 1 < b.len() && b[q + 1] == 10);
                assert(q + 1 < ls) by {
                    if q + 1 == ls {
                        if line >= 1 {
                            assert(b[ls - 1] == 10);
                        } else {
                            assert(ls == 0);
                        }
                    }
                }
                assert(b2[q + 1] == b[q + 1]);
            } else {
                assert(line < n - 1) by {
                    if line == n - 1 {
                        assert(b2.len() == ls);
                    }
                }
                assert(b[q + rl] == 13);
                assert(q + rl + 1 < b.len() && b[q + rl + 1] == 10);
                assert(b2[q + 1] == b[q + rl + 1]);
            }
        }
    }

    /// Every line start after the whole-line removal is a character boundary.
    #[verifier::rlimit(100)]
    #[verifier::spinoff_prover]
    proof fn lemma_drop_boundaries(pre: TextBuffer, post: TextBuffer, line: int)
        requires
            TextBuffer::drop_ctx(pre, post, line),
            valid_utf8(post.bytes()),
        ensures
            forall|i: int|
                0 <= i < post.starts().len() ==> is_char_boundary(
                    post.bytes(),
                    #[trigger] post.line_start(i),
                ),
    {
        let b = pre.bytes();
        let b2 = post.bytes();
        let s2 = post.starts();
        let n = pre.line_count();
        let ls = pre.line_start(line);
        let e = pre.line_end(line);
        let rl = e - ls;
        pre.lemma_line_spans(line);
        TextBuffer::lemma_drop_maps(pre, post, line);
        assert(s2.len() == n - 1);
        assert forall|i: int| 0 <= i < s2.len() implies is_char_boundary(
            b2,
            #[trigger] post.line_start(i),
        ) by {
            let q = post.line_start(i);
            if q == b2.len() {
                is_char_boundary_start_end_of_seq(b2);
            } else {
                assert(!is_continuation_byte(b2[q])) by {
                    if i < line {
                        assert(q == pre.line_start(i));
                        assert(q < ls);
                        assert(b2[q] == b[q]);
                        is_char_boundary_iff_not_is_continuation_byte(b, q);
                    } else {
                        assert(line < n - 1) by {
                            if line == n - 1 {
                                assert(i < post.starts().len());
                            }
                        }
                        assert(q == pre.line_start(i + 1) - rl);
                        assert(pre.line_start(i + 1) >= pre.line_start(line + 1) == e);
                        assert(b2[q] == b[pre.line_start(i + 1)]);
                        assert(pre.line_start(i + 1) < b.len());
                        is_char_boundary_iff_not_is_continuation_byte(b, pre.line_start(i + 1));
                    }
                }
                is_char_boundary_iff_not_is_continuation_byte(b2, q);
            }
        }
    }

    /// Line views after the whole-line removal.
    #[verifier::rlimit(100)]
    #[verifier::spinoff_prover]
    proof fn lemma_drop_views(pre: TextBuffer, post: TextBuffer, line: int)
        requires
            TextBuffer::drop_ctx(pre, post, line),
            post.wf(),
        ensures
            forall|j: int| 0 <= j < line ==> #[trigger] post.line_view(j) == pre.line_view(j),
            forall|j: int|
                line <= j < pre.line_count() - 1 ==> #[trigger] post.line_view(j) == pre.line_view(
                    j + 1,
                ),
    {
        let b = pre.bytes();
        let b2 = post.bytes();
        let w = pre.sep_w();
        let n = pre.line_count();
        let ls = pre.line_start(line);
        let e = pre.line_end(line);
        let rl = e - ls;
        pre.lemma_line_spans(line);
        TextBuffer::lemma_drop_maps(pre, post, line);

        // the last line's trailing separator state carries over to the new
        // last line when lines shift
        assert forall|j: int| line <= j < n - 1 implies #[trigger] post.line_view(j)
            == pre.line_view(j + 1) by {
            assert(line < n - 1);
            pre.lemma_line_valid(j + 1);
            assert(pre.line_start(j + 1) >= pre.line_start(line + 1) == e);
            assert(post.line_start(j) == pre.line_start(j + 1) - rl);
            assert(post.content_end(j) == pre.content_end(j + 1) - rl) by {
                if j < n - 2 {
                    assert(post.line_start(j + 1) == pre.line_start(j + 2) - rl);
                } else {
                    // both last lines see the same trailing bytes
                    assert(post.line_start(n - 2) == pre.line_start(n - 1) - rl);
                    assert(b2.len() - post.line_start(n - 2) == b.len() - pre.line_start(n - 1));
                    if pre.line_start(n - 1) < b.len() {
                        assert(b2[b2.len() - 1] == b[b.len() - 1]);
                        if b.len() - pre.line_start(n - 1) >= 2 {
                            assert(b2[b2.len() - 2] == b[b.len() - 2]);
                        }
                    }
                    assert(post.last_has_sep() == pre.last_has_sep());
                }
            }
            assert(post.line_bytes(j) =~= pre.line_bytes(j + 1));
        }
        assert forall|j: int| 0 <= j < line implies #[trigger] post.line_view(j)
            == pre.line_view(j) by {
            pre.lemma_line_valid(j);
            assert(pre.line_start(j + 1) <= pre.line_start(line) == ls);
            assert(post.content_end(j) == pre.content_end(j)) by {
                if j < line - 1 || line < n - 1 {
                    if j == post.starts().len() - 1 {
                        // j is the new last line only when the removed line
                        // was the old last line
                        assert(j == line - 1 && line == n - 1);
                        assert(post.last_has_sep()) by {
                            assert(b2.len() == ls);
                            assert(b2[b2.len() - 1] == b[ls - 1]);
                            assert(b[ls - 1] == 10);
                            if w == 2 {
                                assert(b2[b2.len() - 2] == b[ls - 2]);
                            }
                            assert(b2.len() - post.line_start(j) >= w);
                        }
                        assert(pre.content_end(j) == pre.line_start(line) - w);
                        assert(post.content_end(j) == b2.len() - w);
                    } else {
                        assert(post.line_start(j + 1) == pre.line_start(j + 1));
                    }
                } else {
                    // j == line - 1 and line == n - 1: handled above
                    assert(j == line - 1 && line == n - 1);
                }
            }
            assert(post.line_bytes(j) =~= pre.line_bytes(j));
        }
    }

    /// The hypotheses shared by the separator-removal lemmas.
    spec fn join_ctx(pre: TextBuffer, post: TextBuffer, line: int) -> bool {
        let e = pre.line_end(line);
        let w = pre.sep_w();
        &&& pre.wf()
        &&& 0 <= line < pre.line_count() - 1
        &&& post.sep() == pre.sep()
        &&& post.bytes() == pre.bytes().subrange(0, e - w) + pre.bytes().subrange(
            e,
            pre.bytes().len() as int,
        )
        &&& post.starts().len() == pre.starts().len() - 1
        &&& (forall|i: int| 0 <= i <= line ==> #[trigger] post.line_start(i) == pre.line_start(i))
        &&& (forall|i: int|
            line < i < post.starts().len() ==> #[trigger] post.line_start(i) == pre.line_start(
                i + 1,
            ) - w)
    }

    /// Byte-index mappings of the separator removal.
    proof fn lemma_join_maps(pre: TextBuffer, post: TextBuffer, line: int)
        requires
            TextBuffer::join_ctx(pre, post, line),
        ensures
            ({
                let b = pre.bytes();
                let b2 = post.bytes();
                let w = pre.sep_w();
                let e = pre.line_end(line);
                &&& b2.len() == b.len() - w
                &&& (forall|k: int| #![trigger b2[k]] 0 <= k < e - w ==> b2[k] == b[k])
                &&& (forall|k: int| #![trigger b2[k]] e - w <= k < b2.len() ==> b2[k] == b[k + w])
                &&& pre.line_start(line) <= e - w
                &&& e == pre.line_start(line + 1)
                &&& pre.content_end(line) == e - w
                &&& b[e - 1] == 10
                &&& (w == 2 ==> b[e - 2] == 13)
            }),
    {
        pre.lemma_line_valid(line);
        pre.lemma_line_spans(line);
    }

    /// The separator removal keeps the line table well-formed.
    #[verifier::rlimit(100)]
    #[verifier::spinoff_prover]
    proof fn lemma_join_lines_wf(pre: TextBuffer, post: TextBuffer, line: int)
        requires
            TextBuffer::join_ctx(pre, post, line),
        ensures
            lines_wf(post.bytes(), post.starts(), pre.sep_w()),
    {
        let b = pre.bytes();
        let b2 = post.bytes();
        let s = pre.starts();
        let s2 = post.starts();
        let w = pre.sep_w();
        let n = pre.line_count();
        let e = pre.line_end(line);
        pre.lemma_line_spans(line);
        TextBuffer::lemma_join_maps(pre, post, line);
        assert forall|i: int| 0 <= i < s2.len() implies #[trigger] s2[i] as int == (if i <= line {
            s[i] as int
        } else {
            s[i + 1] - w
        }) by {
            if i <= line {
                assert(post.line_start(i) == pre.line_start(i));
            } else {
                assert(post.line_start(i) == pre.line_start(i + 1) - w);
            }
        }
        assert forall|i: int, j: int|
            #![trigger s2[i], s2[j]]
            0 <= i < j < s2.len() implies s2[i] + w <= s2[j] by {
            if i <= line && j > line {
                assert(s[i] + w <= s[line + 1]);
                assert(s[line + 1] <= s[j + 1] - w || line + 1 == j + 1);
                if line + 1 < j + 1 {
                    assert(s[line + 1] + w <= s[j + 1]);
                }
            }
        }
        assert forall|i: int| 0 <= i < s2.len() implies #[trigger] s2[i] <= b2.len() by {
            if i <= line {
                assert(s[i] <= s[line] && s[line] + w <= s[line + 1] == e <= b.len());
            }
        }
        assert forall|i: int| 1 <= i < s2.len() implies b2[#[trigger] s2[i] - 1] == 10 && (w == 2
            ==> b2[s2[i] - 2] == 13) by {
            if i <= line {
                assert(s[i] <= s[line] <= e - w);
                assert(b2[s[i] - 1] == b[s[i] - 1]);
                if w == 2 {
                    assert(b2[s[i] - 2] == b[s[i] - 2]);
                }
            } else {
                assert(s[i + 1] >= s[line + 1] + w == e + w);
                assert(b2[s[i + 1] - w - 1] == b[s[i + 1] - 1]);
                if w == 2 {
                    assert(b2[s[i + 1] - w - 2] == b[s[i + 1] - 2]);
                }
            }
        }
        assert forall|k: int|
            #![trigger b2[k]]
            0 <= k < b2.len() - 1 && b2[k] == 10 implies exists|i: int|
                1 <= i < s2.len() && #[trigger] s2[i] == k + 1 by {
            if k < e - w {
                assert(b[k] == 10);
                assert(k < b.len() - 1);
                let i = choose|i: int| 1 <= i < s.len() && #[trigger] s[i] == k + 1;
                assert(i <= line) by {
                    if i > line {
                        assert(s[i] >= s[line + 1] == e);
                    }
                }
                assert(i >= 1 && s2[i] == k + 1);
            } else {
                assert(b[k + w] == 10);
                assert(k + w < b.len() - 1) by {
                    assert(k < b2.len() - 1);
                }
                let i = choose|i: int| 1 <= i < s.len() && #[trigger] s[i] == k + w + 1;
                assert(i > line + 1) by {
                    if i <= line {
                        assert(s[i] <= s[line] <= e - w <= k);
                    } else if i == line + 1 {
                        assert(s[line + 1] == e);
                        assert(k + w + 1 == e);
                        assert(k == e - w - 1);
                        assert(k >= e - w);
                    }
                }
                assert(s2[i - 1] == s[i] - w == k + 1);
            }
        }
    }

    /// The separator removal keeps strict CRLF pairing.
    #[verifier::rlimit(100)]
    #[verifier::spinoff_prover]
    proof fn lemma_join_crlf(pre: TextBuffer, post: TextBuffer, line: int)
        requires
            TextBuffer::join_ctx(pre, post, line),
            pre.sep_w() == 2,
        ensures
            crlf_strict(post.bytes()),
    {
        let b = pre.bytes();
        let b2 = post.bytes();
        let w = pre.sep_w();
        let e = pre.line_end(line);
        pre.lemma_line_spans(line);
        TextBuffer::lemma_join_maps(pre, post, line);
        assert(crlf_strict(b));
        // the byte right after the removed separator is not a line feed: a
        // line feed there would follow the separator's line feed, breaking
        // the pairing with a carriage return
        assert(e < b.len() ==> b[e] != 10) by {
            if e < b.len() && b[e] == 10 {
                assert(b[e - 1] == 13);
                assert(b[e - 1] == 10);
            }
        }
        assert forall|q: int|
            #![trigger b2[q]]
            0 <= q < b2.len() && b2[q] == 10 implies q >= 1 && b2[q - 1] == 13 by {
            if q < e - w {
                assert(b[q] == 10 && b[q - 1] == 13);
                assert(q - 1 < e - w);
            } else {
                assert(b[q + w] == 10);
                assert(q + w >= 1 && b[q + w - 1] == 13);
                assert(q + w > e) by {
                    if q + w == e {
                        assert(q == e - w);
                        assert(b[e] == b2[q + w - w + w]);
                        assert(q + w < b.len());
                        assert(b[e] != 10);
                        assert(b[q + w] == b[e]);
                    }
                }
                assert(q + w - 1 >= e);
                assert(b2[q - 1] == b[q + w - 1]);
            }
        }
        assert forall|q: int|
            #![trigger b2[q]]
            0 <= q < b2.len() && b2[q] == 13 implies q + 1 < b2.len() && b2[q + 1] == 10 by {
            if q < e - w {
                assert(b[q] == 13);
                assert(q + 1 < b.len() && b[q + 1] == 10);
                assert(q + 1 < e - w) by {
                    if q + 1 == e - w {
                        // the separator's carriage return would follow
                        // another carriage return
                        assert(b[e - w] == 13);
                        assert(b[q] == 13 && b[q + 1] == 13);
                        assert(b[q + 1] == 10);
                    }
                }
                assert(b2[q + 1] == b[q + 1]);
            } else {
                assert(b[q + w] == 13);
                assert(q + w + 1 < b.len() && b[q + w + 1] == 10);
                assert(b2[q + 1] == b[q + w + 1]);
            }
        }
    }

    /// Every line start after the separator removal is a character boundary.
    #[verifier::rlimit(100)]
    #[verifier::spinoff_prover]
    proof fn lemma_join_boundaries(pre: TextBuffer, post: TextBuffer, line: int)
        requires
            TextBuffer::join_ctx(pre, post, line),
            valid_utf8(post.bytes()),
        ensures
            forall|i: int|
                0 <= i < post.starts().len() ==> is_char_boundary(
                    post.bytes(),
                    #[trigger] post.line_start(i),
                ),
    {
        let b = pre.bytes();
        let b2 = post.bytes();
        let s = pre.starts();
        let s2 = post.starts();
        let w = pre.sep_w();
        let e = pre.line_end(line);
        pre.lemma_line_spans(line);
        TextBuffer::lemma_join_maps(pre, post, line);
        assert forall|i: int| 0 <= i < s2.len() implies is_char_boundary(
            b2,
            #[trigger] post.line_start(i),
        ) by {
            let q = post.line_start(i);
            if q == b2.len() {
                is_char_boundary_start_end_of_seq(b2);
            } else {
                assert(!is_continuation_byte(b2[q])) by {
                    if i <= line {
                        assert(q == pre.line_start(i));
                        if q < e - w {
                            assert(b2[q] == b[q]);
                            is_char_boundary_iff_not_is_continuation_byte(b, q);
                        } else {
                            // only the merged line's start can touch the
                            // removed span, when that line is empty
                            assert(i == line && q == e - w);
                            assert(b2[q] == b[q + w]);
                            assert(q + w == e < b.len());
                            assert(is_char_boundary(b, e));
                            is_char_boundary_iff_not_is_continuation_byte(b, e);
                        }
                    } else {
                        assert(q == pre.line_start(i + 1) - w);
                        assert(pre.line_start(i + 1) >= pre.line_start(line + 1) + w == e + w);
                        assert(b2[q] == b[pre.line_start(i + 1)]);
                        assert(pre.line_start(i + 1) < b.len());
                        is_char_boundary_iff_not_is_continuation_byte(b, pre.line_start(i + 1));
                    }
                }
                is_char_boundary_iff_not_is_continuation_byte(b2, q);
            }
        }
    }

    /// The separator removal keeps the last line's trailing-separator state.
    #[verifier::rlimit(100)]
    #[verifier::spinoff_prover]
    proof fn lemma_join_tail(pre: TextBuffer, post: TextBuffer, line: int)
        requires
            TextBuffer::join_ctx(pre, post, line),
        ensures
            post.last_has_sep() == pre.last_has_sep(),
    {
        let b = pre.bytes();
        let b2 = post.bytes();
        let w = pre.sep_w();
        let n = pre.line_count();
        let n2 = post.line_count();
        let e = pre.line_end(line);
        pre.lemma_line_spans(line);
        TextBuffer::lemma_join_maps(pre, post, line);
        let sl = pre.line_start(n - 1);
        let sl2 = post.line_start(n2 - 1);
        if line == n - 2 {
            // the merged line becomes the last line; the old last line
            // started right after the removed separator
            assert(sl2 == pre.line_start(line));
            assert(sl == e);
            assert(sl2 <= e - w);
            if b.len() > e {
                assert(b2[b2.len() - 1] == b[b.len() - 1]);
                if pre.last_has_sep() {
                    assert(b2.len() - sl2 >= w);
                    if w == 2 {
                        assert(b2[b2.len() - 2] == b[b.len() - 2]) by {
                            assert(b.len() - 2 >= e);
                        }
                    }
                    assert(post.last_has_sep());
                } else {
                    if post.last_has_sep() {
                        assert(b[b.len() - 1] == 10);
                        if w == 1 {
                            assert(b.len() - sl >= 1);
                            assert(pre.last_has_sep());
                            assert(false);
                        } else {
                            assert(crlf_strict(b));
                            assert(b.len() >= 2 && b[b.len() - 2] == 13);
                            if b.len() - e >= 2 {
                                assert(pre.last_has_sep());
                                assert(false);
                            } else {
                                assert(b.len() == e + 1);
                                assert(b[e - 1] == 10);
                                assert(false);
                            }
                        }
                    }
                }
            } else {
                // the old last line was empty, so neither side has a
                // trailing separator
                assert(b.len() == e);
                assert(!pre.last_has_sep());
                if post.last_has_sep() {
                    assert(b2.len() == e - w);
                    if sl2 == e - w {
                        assert(b2.len() - sl2 == 0);
                        assert(false);
                    } else {
                        let q = b2.len() - 1;
                        assert(b2[q] == 10);
                        assert(b2[q] == b[q]);
                        assert(pre.line_start(line) <= q < pre.content_end(line));
                        pre.lemma_no_sep_in_content(line, q);
                        assert(false);
                    }
                }
            }
        } else {
            // the last line lies fully beyond the removed separator
            assert(pre.line_start(line + 1) + w <= pre.line_start(n - 1));
            assert(sl >= e + w);
            assert(sl2 == sl - w);
            assert(b2.len() - sl2 == b.len() - sl);
            if sl < b.len() {
                assert(b2[b2.len() - 1] == b[b.len() - 1]) by {
                    assert(b.len() - 1 >= sl - w >= e);
                }
                if b.len() - sl >= 2 {
                    assert(b2[b2.len() - 2] == b[b.len() - 2]);
                }
            }
        }
    }

    /// Line views after the separator removal.
    #[verifier::rlimit(100)]
    #[verifier::spinoff_prover]
    proof fn lemma_join_views(pre: TextBuffer, post: TextBuffer, line: int)
        requires
            TextBuffer::join_ctx(pre, post, line),
            post.last_has_sep() == pre.last_has_sep(),
        ensures
            post.line_view(line) == pre.line_view(line) + pre.line_view(line + 1),
            forall|j: int| 0 <= j < line ==> #[trigger] post.line_view(j) == pre.line_view(j),
            forall|j: int|
                line < j < pre.line_count() - 1 ==> #[trigger] post.line_view(j) == pre.line_view(
                    j + 1,
                ),
    {
        let b = pre.bytes();
        let b2 = post.bytes();
        let w = pre.sep_w();
        let n = pre.line_count();
        let e = pre.line_end(line);
        pre.lemma_line_valid(line);
        pre.lemma_line_valid(line + 1);
        pre.lemma_line_spans(line);
        TextBuffer::lemma_join_maps(pre, post, line);

        assert forall|j: int| 0 <= j < line implies #[trigger] post.line_view(j)
            == pre.line_view(j) by {
            pre.lemma_line_valid(j);
            assert(pre.line_start(j + 1) <= pre.line_start(line) <= e - w);
            assert(post.content_end(j) == pre.content_end(j));
            assert(post.line_bytes(j) =~= pre.line_bytes(j));
        }
        assert forall|j: int| line < j < n - 1 implies #[trigger] post.line_view(j)
            == pre.line_view(j + 1) by {
            pre.lemma_line_valid(j + 1);
            assert(pre.line_start(j + 1) >= pre.line_start(line + 1) == e);
            assert(post.line_start(j) == pre.line_start(j + 1) - w);
            assert(post.content_end(j) == pre.content_end(j + 1) - w) by {
                if j < n - 2 {
                    assert(post.line_start(j + 1) == pre.line_start(j + 2) - w);
                }
            }
            assert(post.line_bytes(j) =~= pre.line_bytes(j + 1));
        }
        // the merged line
        assert(post.content_end(line) == pre.content_end(line + 1) - w) by {
            if line < n - 2 {
                assert(post.line_start(line + 1) == pre.line_start(line + 2) - w);
            }
        }
        assert(post.line_bytes(line) =~= pre.line_bytes(line) + pre.line_bytes(line + 1));
        lemma_decode_concat(pre.line_bytes(line), pre.line_bytes(line + 1));
    }

    /// Correctness of the separator removal, assembled from the parts above.
    #[verifier::rlimit(100)]
    #[verifier::spinoff_prover]
    proof fn lemma_join_line(pre: TextBuffer, post: TextBuffer, line: int)
        requires
            TextBuffer::join_ctx(pre, post, line),
            pre.bufs_wf() ==> post.bufs_wf(),
        ensures
            post.wf(),
            post.line_count() == pre.line_count() - 1,
            post.line_view(line) == pre.line_view(line) + pre.line_view(line + 1),
            forall|j: int| 0 <= j < line ==> #[trigger] post.line_view(j) == pre.line_view(j),
            forall|j: int|
                line < j < pre.line_count() - 1 ==> #[trigger] post.line_view(j) == pre.line_view(
                    j + 1,
                ),
            post.last_has_sep() == pre.last_has_sep(),
            post.bytes().len() == pre.bytes().len() - pre.sep_w(),
    {
        let b = pre.bytes();
        let b2 = post.bytes();
        let w = pre.sep_w();
        let e = pre.line_end(line);
        pre.lemma_line_valid(line);
        TextBuffer::lemma_join_maps(pre, post, line);
        // validity: both sides of the removed separator are boundaries
        assert(valid_utf8(b2)) by {
            lemma_mid_subrange_valid(b, e, b.len() as int);
            assert(b.subrange(e, b.len() as int) =~= b.subrange(e, b.len() as int).subrange(
                0,
                b.len() - e,
            ));
            assert(valid_utf8(b.subrange(0, e - w))) by {
                assert(is_char_boundary(b, e - w)) by {
                    if e - w < b.len() {
                        assert(b[e - w] == 10 || b[e - w] == 13);
                        is_char_boundary_iff_not_is_continuation_byte(b, e - w);
                    } else {
                        is_char_boundary_start_end_of_seq(b);
                    }
                }
                valid_utf8_split(b, e - w);
            }
            lemma_decode_concat(b.subrange(0, e - w), b.subrange(e, b.len() as int));
            assert(b2 =~= b.subrange(0, e - w) + b.subrange(e, b.len() as int));
        }
        TextBuffer::lemma_join_lines_wf(pre, post, line);
        if w == 2 {
            TextBuffer::lemma_join_crlf(pre, post, line);
        }
        TextBuffer::lemma_join_boundaries(pre, post, line);
        TextBuffer::lemma_join_tail(pre, post, line);
        assert(post.wf());
        TextBuffer::lemma_join_views(pre, post, line);
    }

    /// Common context for the splice lemmas: byte index mappings and span
    /// ordering.
    spec fn splice_ctx(pre: TextBuffer, post: TextBuffer, line: int, c1: int, c2: int, d: Seq<
        u8,
    >) -> bool {
        let p1 = pre.line_start(line) + char_off(pre.line_bytes(line), c1);
        let p2 = pre.line_start(line) + char_off(pre.line_bytes(line), c2);
        &&& pre.wf()
        &&& 0 <= line < pre.line_count()
        &&& 0 <= c1 <= c2 <= pre.line_view(line).len()
        &&& valid_utf8(d)
        &&& (forall|j: int|
            0 <= j < d.len() ==> #[trigger] d[j] != 10 && (pre.sep_w() == 2 ==> d[j] != 13))
        &&& TextBuffer::spliced(pre, post, line, c1, c2, d)
        &&& pre.line_start(line) <= p1 <= p2 <= pre.content_end(line)
    }

    /// The splice leaves the last line's trailing-separator state unchanged.
    #[verifier::rlimit(100)]
    #[verifier::spinoff_prover]
    proof fn lemma_splice_keeps_tail(pre: TextBuffer, post: TextBuffer, line: int, c1: int, c2: int, d: Seq<
        u8,
    >)
        requires
            TextBuffer::splice_ctx(pre, post, line, c1, c2, d),
        ensures
            post.last_has_sep() == pre.last_has_sep(),
    {
        let b = pre.bytes();
        let b2 = post.bytes();
        let w = pre.sep_w();
        let n = pre.line_count();
        let lb = pre.line_bytes(line);
        let ls = pre.line_start(line);
        let ce = pre.content_end(line);
        let p1 = ls + char_off(lb, c1);
        let p2 = ls + char_off(lb, c2);
        let dl = d.len() as int;
        let delta = dl - (p2 - p1);
        let sl = pre.line_start(n - 1);
        pre.lemma_line_valid(line);
        pre.lemma_line_spans(line);
        assert(b2.len() == b.len() + delta);
        assert forall|k: int| 0 <= k < p1 implies #[trigger] b2[k] == b[k] by {}
        assert forall|k: int| p1 <= k < p1 + dl implies #[trigger] b2[k] == d[k - p1] by {}
        assert forall|k: int| p2 <= k < b.len() implies #[trigger] b2[k + delta] == b[k] by {}

        if line < n - 1 {
            // the whole last line lies beyond the splice
            let sl2 = post.line_start(n - 1);
            assert(post.line_start(n - 1) == pre.line_start(n - 1) + delta);
            assert(sl2 == sl + delta);
            assert(p2 <= pre.line_start(line + 1) <= sl) by {
                assert(ce <= pre.line_end(line));
            }
            if sl < b.len() {
                assert(b2[b2.len() - 1] == b[b.len() - 1]);
                if b.len() - sl >= 2 {
                    assert(b2[b2.len() - 2] == b[b.len() - 2]);
                }
            }
            assert(b2.len() - sl2 == b.len() - sl);
        } else {
            // the splice happens inside the last line's content
            assert(post.line_start(n - 1) == pre.line_start(n - 1));
            assert(post.line_start(n - 1) == sl);
            if pre.last_has_sep() {
                assert(ce == b.len() - w);
                assert(b2[b2.len() - 1] == b[b.len() - 1]);
                if w == 2 {
                    assert(b2[b2.len() - 2] == b[b.len() - 2]);
                }
                assert(b2.len() - sl >= w) by {
                    assert(p1 >= sl);
                    assert(b2.len() == p1 + dl + (b.len() - p2));
                    assert(b.len() - p2 >= b.len() - ce == w);
                }
                assert(post.last_has_sep());
            } else {
                assert(ce == b.len());
                if post.last_has_sep() {
                    let q = b2.len() - 1;
                    assert(b2[q] == 10);
                    if q >= p1 + dl {
                        assert(b2[q] == b[q - delta]);
                        assert(q - delta == b.len() - 1);
                        pre.lemma_final_newline_is_sep();
                        assert(false);
                    } else if q >= p1 {
                        assert(b2[q] == d[q - p1]);
                        assert(false);
                    } else {
                        // the splice removed the whole tail: p1 == p2 == b.len()
                        assert(q == p1 - 1 && dl == 0 && p2 == b.len() && p1 == b.len());
                        assert(b2 =~= b);
                        assert(false);
                    }
                }
            }
        }
    }

    /// In a well-formed buffer whose last line has no trailing separator, the
    /// final byte is not a line feed unless it is the separator right before
    /// an empty last line.
    proof fn lemma_final_newline_is_sep(self)
        requires
            self.wf(),
            self.bytes().len() > 0,
            !self.last_has_sep(),
            self.bytes()[self.bytes().len() - 1] == 10,
        ensures
            self.line_start(self.line_count() - 1) == self.bytes().len(),
    {
        let b = self.bytes();
        let n = self.line_count();
        let w = self.sep_w();
        let sl = self.line_start(n - 1);
        if sl < b.len() {
            if w == 1 {
                assert(b.len() - sl >= 1);
                assert(self.last_has_sep());
            } else {
                assert(crlf_strict(b));
                assert(b[b.len() - 1] == 10);
                assert(b.len() >= 2 && b[b.len() - 2] == 13);
                if b.len() - sl >= 2 {
                    assert(self.last_has_sep());
                } else {
                    // sl == len - 1; the byte before a line start is a line
                    // feed, never a carriage return
                    assert(sl == b.len() - 1);
                    if n >= 2 {
                        assert(b[sl - 1] == 10);
                        assert(false);
                    } else {
                        assert(sl == 0);
                        assert(b.len() == 1);
                        assert(false);
                    }
                }
            }
        }
    }

    /// The spliced start table satisfies `lines_wf` again.
    #[verifier::rlimit(100)]
    #[verifier::spinoff_prover]
    proof fn lemma_splice_lines_wf(pre: TextBuffer, post: TextBuffer, line: int, c1: int, c2: int, d: Seq<
        u8,
    >)
        requires
            TextBuffer::splice_ctx(pre, post, line, c1, c2, d),
        ensures
            lines_wf(post.bytes(), post.starts(), pre.sep_w()),
    {
        let b = pre.bytes();
        let b2 = post.bytes();
        let s = pre.starts();
        let s2 = post.starts();
        let w = pre.sep_w();
        let n = pre.line_count();
        let lb = pre.line_bytes(line);
        let ls = pre.line_start(line);
        let ce = pre.content_end(line);
        let p1 = ls + char_off(lb, c1);
        let p2 = ls + char_off(lb, c2);
        let dl = d.len() as int;
        let delta = dl - (p2 - p1);
        pre.lemma_line_valid(line);
        pre.lemma_line_spans(line);
        assert(b2.len() == b.len() + delta);
        assert forall|k: int| 0 <= k < p1 implies #[trigger] b2[k] == b[k] by {}
        assert forall|k: int| p1 <= k < p1 + dl implies #[trigger] b2[k] == d[k - p1] by {}
        assert forall|k: int| p2 <= k < b.len() implies #[trigger] b2[k + delta] == b[k] by {}
        assert(p2 <= ce);
        assert(line < n - 1 ==> ce + w <= pre.line_start(line + 1)) by {
            if line < n - 1 {
                assert(ce == pre.line_start(line + 1) - w);
            }
        }

        assert forall|i: int| 0 <= i < s2.len() implies #[trigger] s2[i] == (if i <= line {
            s[i] as int
        } else {
            s[i] + delta
        }) by {
            if i <= line {
                assert(post.line_start(i) == pre.line_start(i));
            } else {
                assert(post.line_start(i) == pre.line_start(i) + delta);
            }
        }
        assert(s2[0] == s[0]);
        assert forall|i: int, j: int|
            #![trigger s2[i], s2[j]]
            0 <= i < j < s2.len() implies s2[i] + w <= s2[j] by {
            assert(s[i] + w <= s[j]);
            if i <= line && j > line {
                assert(s2[j] == s[j] + delta);
                assert(s[j] >= pre.line_start(line + 1));
                assert(s[j] + delta >= ce + w + delta);
                assert(ce + delta >= p1) by {
                    assert(delta >= -(p2 - p1));
                    assert(ce >= p2);
                }
                assert(s2[i] <= s[line] <= p1);
            }
        }
        assert forall|i: int| 0 <= i < s2.len() implies #[trigger] s2[i] <= b2.len() by {
            if i > line {
                assert(s2[i] == s[i] + delta);
            } else {
                assert(s2[i] == s[i]);
                assert(s[i] <= s[line] <= p1 <= p1 + dl + (b.len() - p2));
            }
        }
        assert forall|i: int| 1 <= i < s2.len() implies b2[#[trigger] s2[i] - 1] == 10 && (w == 2
            ==> b2[s2[i] - 2] == 13) by {
            if i <= line {
                assert(s2[i] == s[i]);
                assert(s[i] <= s[line] <= p1);
                assert(b2[s[i] - 1] == b[s[i] - 1]);
                if w == 2 {
                    assert(b2[s[i] - 2] == b[s[i] - 2]);
                }
            } else {
                assert(s2[i] == s[i] + delta);
                assert(s[i] >= pre.line_start(line + 1) >= ce + w >= p2 + w);
                assert(b2[s[i] - 1 + delta] == b[s[i] - 1]);
                if w == 2 {
                    assert(b2[s[i] - 2 + delta] == b[s[i] - 2]);
                }
            }
        }
        assert forall|k: int|
            #![trigger b2[k]]
            0 <= k < b2.len() - 1 && b2[k] == 10 implies exists|i: int|
                1 <= i < s2.len() && #[trigger] s2[i] == k + 1 by {
            if k < p1 {
                assert(b[k] == 10);
                if k < b.len() - 1 {
                    let i = choose|i: int| 1 <= i < s.len() && #[trigger] s[i] == k + 1;
                    assert(s[i] <= p1);
                    assert(i <= line) by {
                        if i > line {
                            assert(s[i] >= pre.line_start(line + 1) >= ce + w > p1);
                        }
                    }
                    assert(s2[i] == k + 1);
                } else {
                    // the final byte is a line feed and the splice happens
                    // right after it, so the last line is empty and its start
                    // entry sits exactly there
                    assert(k == b.len() - 1);
                    assert(p1 == b.len() && p2 == b.len());
                    assert(ce == b.len());
                    assert(line == n - 1) by {
                        if line < n - 1 {
                            assert(ce + w <= pre.line_start(line + 1) <= b.len());
                        }
                    }
                    assert(!pre.last_has_sep()) by {
                        if pre.last_has_sep() {
                            assert(ce == b.len() - w);
                        }
                    }
                    pre.lemma_final_newline_is_sep();
                    assert(pre.line_start(n - 1) == b.len());
                    assert(n >= 2) by {
                        if n == 1 {
                            assert(s[0] == 0);
                            assert(pre.line_start(0) == b.len());
                        }
                    }
                    assert(s2[n - 1] == k + 1);
                }
            } else if k < p1 + dl {
                assert(b2[k] == d[k - p1]);
                assert(false);
            } else {
                assert(b[k - delta] == 10);
                assert(k - delta >= p2);
                assert(k - delta < b.len() - 1) by {
                    assert(k < b2.len() - 1);
                }
                let i = choose|i: int| 1 <= i < s.len() && #[trigger] s[i] == k - delta + 1;
                assert(i > line) by {
                    if i <= line {
                        assert(s[i] <= s[line] <= p1 <= p2 <= k - delta);
                    }
                }
                assert(s2[i] == s[i] + delta == k + 1);
            }
        }
    }

    /// Strict CRLF pairing survives the splice.
    #[verifier::rlimit(100)]
    #[verifier::spinoff_prover]
    proof fn lemma_splice_crlf(pre: TextBuffer, post: TextBuffer, line: int, c1: int, c2: int, d: Seq<
        u8,
    >)
        requires
            TextBuffer::splice_ctx(pre, post, line, c1, c2, d),
            pre.sep_w() == 2,
        ensures
            crlf_strict(post.bytes()),
    {
        let b = pre.bytes();
        let b2 = post.bytes();
        let w = pre.sep_w();
        let n = pre.line_count();
        let lb = pre.line_bytes(line);
        let ls = pre.line_start(line);
        let ce = pre.content_end(line);
        let p1 = ls + char_off(lb, c1);
        let p2 = ls + char_off(lb, c2);
        let dl = d.len() as int;
        let delta = dl - (p2 - p1);
        pre.lemma_line_valid(line);
        pre.lemma_line_spans(line);
        assert(crlf_strict(b));
        assert(b2.len() == b.len() + delta);
        assert forall|k: int| 0 <= k < p1 implies #[trigger] b2[k] == b[k] by {}
        assert forall|k: int| p1 <= k < p1 + dl implies #[trigger] b2[k] == d[k - p1] by {}
        assert forall|k: int| p2 <= k < b.len() implies #[trigger] b2[k + delta] == b[k] by {}
        assert forall|p: int|
            #![trigger b2[p]]
            0 <= p < b2.len() && b2[p] == 10 implies p >= 1 && b2[p - 1] == 13 by {
            if p < p1 {
                assert(b[p] == 10);
                assert(b[p - 1] == 13);
                assert(p - 1 < p1);
            } else if p < p1 + dl {
                assert(false);
            } else {
                assert(b[p - delta] == 10);
                assert(p - delta >= 1 && b[p - delta - 1] == 13);
                if p - delta - 1 >= p2 {
                    assert(b2[p - 1] == b[p - delta - 1]);
                } else {
                    // the line feed sits exactly at the splice's right edge;
                    // a line feed is never a content byte, so the edge is the
                    // content end, where CRLF style puts a carriage return
                    assert(p - delta == p2);
                    if p2 < ce {
                        pre.lemma_no_sep_in_content(line, p2);
                        assert(false);
                    } else {
                        assert(p2 == ce);
                        assert(ce < pre.line_end(line)) by {
                            if ce == pre.line_end(line) {
                                assert(line == n - 1 && !pre.last_has_sep());
                                assert(ce == b.len());
                                assert(p - delta < b.len());
                            }
                        }
                        assert(b[ce] == 13);
                        assert(false);
                    }
                }
            }
        }
        assert forall|p: int|
            #![trigger b2[p]]
            0 <= p < b2.len() && b2[p] == 13 implies p + 1 < b2.len() && b2[p + 1] == 10 by {
            if p < p1 {
                assert(b[p] == 13);
                assert(p + 1 < b.len() && b[p + 1] == 10);
                if p + 1 < p1 {
                    assert(b2[p + 1] == b[p + 1]);
                } else {
                    // a carriage return right below the splice point: the
                    // splice point would sit inside a separator
                    assert(p == p1 - 1);
                    pre.lemma_no_sep_in_content(line, p1 - 1);
                    assert(p1 - 1 >= ce || p1 - 1 < ls);
                    assert(p1 == ls || p1 - 1 >= ce);
                    if p1 == ls {
                        // the byte before a line start is a line feed
                        assert(line >= 1 ==> b[ls - 1] == 10);
                        if line == 0 {
                            assert(ls == 0);
                        }
                        assert(false);
                    } else {
                        assert(p1 - 1 >= ce && p1 <= ce);
                        assert(p1 == ce && p1 - 1 == ce - 1 >= ce);
                        assert(false);
                    }
                }
            } else if p < p1 + dl {
                assert(false);
            } else {
                assert(b[p - delta] == 13);
                assert(p - delta + 1 < b.len() && b[p - delta + 1] == 10);
                assert(b2[p + 1] == b[p - delta + 1]);
            }
        }
    }

    /// Content bytes of a line are neither line feeds nor, in CRLF style,
    /// carriage returns.
    proof fn lemma_no_sep_in_content(self, line: int, q: int)
        requires
            self.wf(),
            0 <= line < self.line_count(),
            self.line_start(line) <= q < self.content_end(line),
        ensures
            self.bytes()[q] != 10,
            self.sep_w() == 2 ==> self.bytes()[q] != 13,
        decreases self.content_end(line) - q,
    {
        let b = self.bytes();
        let s = self.starts();
        let n = self.line_count();
        let w = self.sep_w();
        let ce = self.content_end(line);
        self.lemma_line_spans(line);
        if b[q] == 10 {
            assert(q < b.len() - 1) by {
                if q == b.len() - 1 {
                    assert(ce == b.len());
                    assert(line == n - 1 && !self.last_has_sep());
                    if w == 1 {
                        assert(b.len() - self.line_start(n - 1) >= 1);
                        assert(self.last_has_sep());
                    } else {
                        assert(crlf_strict(b));
                        assert(b.len() >= 2 && b[b.len() - 2] == 13);
                        if b.len() - self.line_start(n - 1) >= 2 {
                            assert(self.last_has_sep());
                        } else {
                            assert(self.line_start(n - 1) >= b.len() - 1);
                            assert(self.line_start(n - 1) <= q);
                            assert(self.line_start(n - 1) == b.len() - 1);
                            if n >= 2 {
                                assert(b[self.line_start(n - 1) - 1] == 10);
                                assert(false);
                            } else {
                                assert(self.line_start(0) == 0);
                                assert(b.len() == 1);
                                assert(false);
                            }
                        }
                    }
                }
            }
            let i = choose|i: int| 1 <= i < s.len() && #[trigger] s[i] == q + 1;
            if i <= line {
                assert(s[i] <= s[line] <= q);
            } else {
                assert(s[i] >= self.line_start(line + 1));
                assert(q + 1 <= ce < self.line_start(line + 1)) by {
                    assert(ce == self.line_start(line + 1) - w);
                }
            }
            assert(false);
        }
        if w == 2 && b[q] == 13 {
            assert(crlf_strict(b));
            assert(q + 1 < b.len() && b[q + 1] == 10);
            if q + 1 < ce {
                // handled above: no line feed inside the content
                assert(self.bytes()[q + 1] == 10);
                self.lemma_no_sep_in_content(line, q + 1);
                assert(false);
            } else {
                assert(q + 1 == ce);
                // the byte at the content end in CRLF style is a carriage
                // return, so the line feed cannot sit there
                assert(ce < self.line_end(line) ==> b[ce] == 13);
                if ce == self.line_end(line) {
                    assert(line == n - 1 && !self.last_has_sep());
                    assert(ce == b.len());
                    assert(q + 1 < b.len());
                }
                assert(false);
            }
        }
    }
}

/// Forward character cursor over a buffer's bytes, starting anywhere on a
/// character boundary and running to the end of the buffer.
pub struct Utf8Iter<'a> {
    buf: &'a GapBuffer<u8>,
    index: usize,
}

impl<'a> Utf8Iter<'a> {
    pub closed spec fn bytes(self) -> Seq<u8> {
        self.buf@
    }

    pub closed spec fn pos(self) -> int {
        self.index as int
    }

    pub closed spec fn wf(self) -> bool {
        &&& self.buf.wf()
        &&& valid_utf8(self.buf@)
        &&& self.index <= self.buf@.len()
        &&& is_char_boundary(self.buf@, self.index as int)
    }

    /// The characters this iterator has yet to yield.
    pub open spec fn remaining(self) -> Seq<char> {
        decode_utf8(self.bytes().subrange(self.pos(), self.bytes().len() as int))
    }

    /// Yields the next character, decoding one to four bytes.
    pub fn next(&mut self) -> (r: Option<char>)
        requires
            old(self).wf(),
        ensures
            final(self).wf(),
            final(self).bytes() == old(self).bytes(),
            old(self).remaining().len() == 0 ==> r is None && final(self).pos() == old(self).pos(),
            old(self).remaining().len() > 0 ==> r == Some(old(self).remaining()[0])
                && final(self).remaining() == old(self).remaining().drop_first()
                && old(self).pos() < final(self).pos() <= old(self).bytes().len(),
    {
        let n = self.buf.len();
        proof {
            valid_utf8_split(self.buf@, self.index as int);
            if self.index == n {
                assert(self.remaining() =~= decode_utf8(Seq::<u8>::empty()));
            }
        }
        if self.index >= n {
            return None;
        }
        let ghost suf = self.buf@.subrange(self.index as int, self.buf@.len() as int);
        let (c, l) = decode_char_in(self.buf, self.index);
        proof {
            lemma_boundary_step(self.buf@, self.index as int);
            assert(pop_first_scalar(suf) =~= self.buf@.subrange(
                self.index + l,
                self.buf@.len() as int,
            ));
            assert(decode_utf8(suf) == seq![decode_first_scalar(suf) as char] + decode_utf8(
                pop_first_scalar(suf),
            ));
            assert(decode_utf8(pop_first_scalar(suf)) =~= decode_utf8(suf).drop_first());
        }
        self.index = self.index + l;
        Some(c)
    }
}

/// Backward character cursor over a buffer's bytes; `index` sits one past the
/// character yielded next, always on a character boundary.
pub struct Utf8RevIter<'a> {
    buf: &'a GapBuffer<u8>,
    index: usize,
}

impl<'a> Utf8RevIter<'a> {
    pub closed spec fn bytes(self) -> Seq<u8> {
        self.buf@
    }

    pub closed spec fn pos(self) -> int {
        self.index as int
    }

    pub closed spec fn wf(self) -> bool {
        &&& self.buf.wf()
        &&& valid_utf8(self.buf@)
        &&& self.index <= self.buf@.len()
        &&& is_char_boundary(self.buf@, self.index as int)
    }

    /// The characters this iterator has yet to yield, in forward order; they
    /// come out back to front.
    pub open spec fn remaining(self) -> Seq<char> {
        decode_utf8(self.bytes().subrange(0, self.pos()))
    }

    /// Yields the previous character, reassembling it from its continuation
    /// bytes right to left.
    #[verifier::rlimit(100)]
    pub fn next(&mut self) -> (r: Option<char>)
        requires
            old(self).wf(),
        ensures
            final(self).wf(),
            final(self).bytes() == old(self).bytes(),
            old(self).remaining().len() == 0 ==> r is None && final(self).pos() == old(self).pos(),
            old(self).remaining().len() > 0 ==> r == Some(old(self).remaining().last())
                && final(self).remaining() == old(self).remaining().drop_last()
                && 0 <= final(self).pos() < old(self).pos(),
    {
        let ghost b = self.buf@;
        let ghost pfx = b.subrange(0, self.index as int);
        proof {
            valid_utf8_split(b, self.index as int);
            if self.index == 0 {
                assert(self.remaining() =~= decode_utf8(Seq::<u8>::empty()));
            }
        }
        if self.index == 0 {
            return None;
        }
        proof {
            crate::utf8_walk::lemma_last_scalar(pfx);
        }
        let ghost l = vstd::utf8::length_of_last_scalar(pfx);
        let ghost target = self.index - l;
        // walk back over continuation bytes to the scalar's leading byte
        let mut st = self.index - 1;
        let mut b0 = self.buf.get_one(st);
        proof {
            assert(b[st as int] == pfx[st as int]);
        }
        while 0x80 <= b0 && b0 <= 0xbf
            invariant
                self.wf(),
                b == self.buf@,
                pfx == b.subrange(0, self.index as int),
                1 <= self.index <= b.len(),
                l == vstd::utf8::length_of_last_scalar(pfx),
                target == self.index - l,
                target <= st < self.index,
                b0 == b[st as int],
                forall|k: int| st < k < self.index ==> is_continuation_byte(#[trigger] pfx[k]),
                !is_continuation_byte(pfx[target]),
                forall|k: int| target < k < self.index ==> is_continuation_byte(#[trigger] pfx[k]),
            decreases st,
        {
            proof {
                assert(is_continuation_byte(pfx[st as int]));
                assert(st != target);
            }
            st = st - 1;
            b0 = self.buf.get_one(st);
            proof {
                assert(b[st as int] == pfx[st as int]);
            }
        }
        proof {
            assert(!is_continuation_byte(pfx[st as int]));
            assert(st == target) by {
                if st > target {
                    assert(is_continuation_byte(pfx[st as int]));
                }
            }
            assert(is_char_boundary(b, st as int)) by {
                is_char_boundary_iff_not_is_continuation_byte(b, st as int);
            }
        }
        let (c, cl) = decode_char_in(self.buf, st);
        proof {
            // the scalar decoded at the boundary is the prefix's last scalar
            let gsuf = b.subrange(st as int, b.len() as int);
            let psuf = pfx.subrange(st as int, pfx.len() as int);
            crate::utf8_walk::lemma_first_scalar_agree(psuf, gsuf);
            assert(c == decode_first_scalar(psuf) as char);
            assert(cl == l);
            assert(decode_utf8(pfx) == decode_utf8(pfx.subrange(0, st as int)) + seq![
                decode_first_scalar(psuf) as char,
            ]);
            assert(decode_utf8(pfx).last() == c);
            assert(b.subrange(0, st as int) =~= pfx.subrange(0, st as int));
            assert(decode_utf8(b.subrange(0, st as int)) =~= decode_utf8(pfx).drop_last());
        }
        self.index = st;
        Some(c)
    }
}

impl TextBuffer {
    /// The raw characters of a line relate to its visible characters by the
    /// trailing separator, when one is present.
    pub proof fn lemma_raw_view(self, i: int)
        requires
            self.wf(),
            0 <= i < self.line_count(),
        ensures
            self.content_end(i) < self.line_end(i) ==> self.raw_line_view(i) == self.line_view(i)
                + self.sep().sep_chars(),
            self.content_end(i) == self.line_end(i) ==> self.raw_line_view(i) == self.line_view(i),
            i < self.line_count() - 1 ==> self.content_end(i) < self.line_end(i),
    {
        self.lemma_line_valid(i);
        self.lemma_line_spans(i);
        if self.content_end(i) < self.line_end(i) {
            TextBuffer::lemma_sep_encode(self.sep());
            lemma_decode_concat(self.line_bytes(i), self.sep().sep_bytes());
            vstd::utf8::encode_utf8_decode_utf8(self.sep().sep_chars());
        }
    }

    /// Like `lemma_col_position`, but over the raw line span including its
    /// separator.
    pub proof fn lemma_raw_col_position(self, i: int, k: int)
        requires
            self.wf(),
            0 <= i < self.line_count(),
            0 <= k <= self.raw_line_view(i).len(),
        ensures
            ({
                let rb = self.raw_line_bytes(i);
                let off = char_off(rb, k);
                let p = self.line_start(i) + off;
                &&& 0 <= off <= rb.len()
                &&& self.line_start(i) <= p <= self.line_end(i)
                &&& is_char_boundary(self.bytes(), p)
            }),
    {
        let b = self.bytes();
        let rb = self.raw_line_bytes(i);
        let s = self.line_start(i);
        let e = self.line_end(i);
        self.lemma_line_valid(i);
        assert(valid_utf8(rb));
        lemma_char_off(rb, k);
        let off = char_off(rb, k);
        let p = s + off;
        assert(is_char_boundary(b, p)) by {
            if off < rb.len() {
                let lsuf = rb.subrange(off, rb.len() as int);
                assert(valid_first_scalar(lsuf));
                assert(!is_continuation_byte(lsuf[0]));
                assert(b[p] == rb[off]);
                is_char_boundary_iff_not_is_continuation_byte(b, p);
            } else {
                assert(p == e);
            }
        }
    }

    /// A forward character iterator anchored at a (line, column) position.
    pub fn utf8_iter(&self, pos: LinePos) -> (r: Utf8Iter<'_>)
        requires
            self.wf(),
            pos.line < self.line_count(),
            pos.col <= self.line_view(pos.line as int).len(),
        ensures
            r.wf(),
            r.bytes() == self.bytes(),
            r.pos() == self.line_start(pos.line as int) + char_off(
                self.line_bytes(pos.line as int),
                pos.col as int,
            ),
            r.remaining().len() <= self.bytes().len(),
    {
        proof {
            self.lemma_line_valid(pos.line as int);
            self.lemma_col_position(pos.line as int, pos.col as int);
        }
        let total = self.chars.len();
        let start = self.lines.get_one(pos.line);
        let off = self.screen_index_to_bytes_index(pos.line, pos.col);
        let r = Utf8Iter { buf: &self.chars, index: start + off };
        proof {
            valid_utf8_split(self.bytes(), r.pos());
            lemma_decode_len_le(self.bytes().subrange(r.pos(), self.bytes().len() as int));
        }
        r
    }

    /// A backward character iterator whose first yield is the character at
    /// `pos`, counted in the line's raw characters (separator included).
    pub fn utf8_rev_iter(&self, pos: LinePos) -> (r: Utf8RevIter<'_>)
        requires
            self.wf(),
            pos.line < self.line_count(),
            pos.col < self.raw_line_view(pos.line as int).len(),
        ensures
            r.wf(),
            r.bytes() == self.bytes(),
            r.pos() == self.line_start(pos.line as int) + char_off(
                self.raw_line_bytes(pos.line as int),
                pos.col + 1,
            ),
            r.remaining().len() >= 1,
            r.remaining().len() <= self.bytes().len(),
    {
        proof {
            self.lemma_line_valid(pos.line as int);
            self.lemma_raw_col_position(pos.line as int, pos.col + 1);
            lemma_decode_len_le(self.raw_line_bytes(pos.line as int));
        }
        let total = self.chars.len();
        let start = self.lines.get_one(pos.line);
        let off = self.raw_index_to_bytes_index(pos.line, pos.col + 1);
        let r = Utf8RevIter { buf: &self.chars, index: start + off };
        proof {
            // the prefix holds at least the characters up to `pos`, so it
            // decodes to at least one character
            let rb = self.raw_line_bytes(pos.line as int);
            lemma_char_off(rb, 0);
            crate::utf8_walk::lemma_char_off_mono(rb, 1, pos.col + 1);
            assert(r.pos() >= 1);
            let pfx = self.bytes().subrange(0, r.pos());
            valid_utf8_split(self.bytes(), r.pos());
            assert(valid_utf8(pfx));
            assert(decode_utf8(pfx).len() >= 1) by {
                assert(pfx.len() > 0);
            }
            lemma_decode_len_le(pfx);
        }
        r
    }

    /// Translates a raw character index of `line` (separator characters
    /// included) to the byte offset inside the raw line where it starts.
    fn raw_index_to_bytes_index(&self, line: usize, index: usize) -> (r: usize)
        requires
            self.wf(),
            line < self.line_count(),
            index <= self.raw_line_view(line as int).len(),
        ensures
            r == char_off(self.raw_line_bytes(line as int), index as int),
            r <= self.line_end(line as int) - self.line_start(line as int),
    {
        proof {
            self.lemma_line_valid(line as int);
        }
        let nl = self.lines.len();
        let s = self.lines.get_one(line);
        let e = if line + 1 < nl {
            self.lines.get_one(line + 1)
        } else {
            self.chars.len()
        };
        let ghost rb = self.raw_line_bytes(line as int);
        let mut o: usize = s;
        let mut k: usize = 0;
        while k < index
            invariant
                self.wf(),
                line < self.line_count(),
                index <= decode_utf8(rb).len(),
                rb == self.raw_line_bytes(line as int),
                valid_utf8(rb),
                s == self.line_start(line as int),
                e == self.line_end(line as int),
                s <= o <= e <= self.bytes().len(),
                k <= index,
                o - s == char_off(rb, k as int),
            decreases index - k,
        {
            proof {
                lemma_char_off(rb, k as int);
            }
            let b0 = self.chars.get_one(o);
            proof {
                lemma_scalar_len_first(rb.subrange(o - s, rb.len() as int));
                assert(rb[o - s] == self.bytes()[o as int]);
                lemma_char_off(rb, k as int + 1);
            }
            let l = scalar_len(b0);
            o = o + l;
            k = k + 1;
        }
        o - s
    }

    /// The decoded text of line `line` including its trailing separator.
    pub fn raw_line(&self, line: usize) -> (r: String)
        requires
            self.wf(),
            line < self.line_count(),
        ensures
            r@ == self.raw_line_view(line as int),
    {
        proof {
            self.lemma_line_valid(line as int);
        }
        let nl = self.lines.len();
        let s = self.lines.get_one(line);
        let e = if line + 1 < nl {
            self.lines.get_one(line + 1)
        } else {
            self.chars.len()
        };
        let ghost rb = self.raw_line_bytes(line as int);
        let mut out = String::new();
        let mut o: usize = s;
        let mut k: usize = 0;
        while o < e
            invariant
                self.wf(),
                line < self.line_count(),
                rb == self.raw_line_bytes(line as int),
                valid_utf8(rb),
                s == self.line_start(line as int),
                e == self.line_end(line as int),
                s <= o <= e <= self.bytes().len(),
                k <= decode_utf8(rb).len(),
                o - s == char_off(rb, k as int),
                out@ == decode_utf8(rb).take(k as int),
            decreases e - o,
        {
            proof {
                lemma_char_off(rb, k as int);
                let lsuf = rb.subrange(o - s, rb.len() as int);
                let gsuf = self.bytes().subrange(o as int, self.bytes().len() as int);
                assert forall|j: int| 0 <= j < length_of_first_scalar(lsuf) implies lsuf[j]
                    == #[trigger] gsuf[j] by {
                    assert(lsuf[j] == self.bytes()[o + j]);
                }
                lemma_first_scalar_agree(lsuf, gsuf);
                assert(is_char_boundary(self.bytes(), o as int)) by {
                    assert(!is_continuation_byte(lsuf[0]));
                    assert(self.bytes()[o as int] == lsuf[0]);
                    is_char_boundary_iff_not_is_continuation_byte(self.bytes(), o as int);
                }
            }
            let (c, l) = decode_char_in(&self.chars, o);
            push_char(&mut out, c);
            proof {
                lemma_char_off(rb, k as int + 1);
                assert(c == decode_utf8(rb)[k as int]);
                assert(out@ =~= decode_utf8(rb).take(k as int + 1));
                lemma_decode_len_le(rb);
            }
            o = o + l;
            k = k + 1;
        }
        proof {
            lemma_char_off(rb, k as int);
            assert(out@ =~= self.raw_line_view(line as int));
        }
        out
    }

    /// The whole buffer's decoded text in one piece.
    pub fn full_view(&self) -> (r: LineView)
        requires
            self.wf(),
        ensures
            r matches LineView::Contiguous(t) && t@ == decode_utf8(self.bytes()),
    {
        let n = self.chars.len();
        let ghost b = self.bytes();
        let mut out = String::new();
        let mut o: usize = 0;
        let mut k: usize = 0;
        proof {
            vstd::utf8::is_char_boundary_start_end_of_seq(b);
            lemma_char_off(b, 0);
        }
        while o < n
            invariant
                self.wf(),
                b == self.bytes(),
                n == b.len(),
                o <= n,
                k <= decode_utf8(b).len(),
                o == char_off(b, k as int),
                out@ == decode_utf8(b).take(k as int),
            decreases n - o,
        {
            proof {
                lemma_char_off(b, k as int);
            }
            let (c, l) = decode_char_in(&self.chars, o);
            push_char(&mut out, c);
            proof {
                lemma_char_off(b, k as int + 1);
                assert(c == decode_utf8(b)[k as int]);
                assert(b.subrange(0, b.len() as int) =~= b);
                assert(out@ =~= decode_utf8(b).take(k as int + 1));
                lemma_decode_len_le(b);
            }
            o = o + l;
            k = k + 1;
        }
        proof {
            lemma_char_off(b, k as int);
            assert(out@ =~= decode_utf8(b));
        }
        LineView::Contiguous(out)
    }
}

/// Decoding splits at any character boundary: the characters before the
/// boundary (what a backward iterator yields, read in forward order) followed
/// by the characters after it (what a forward iterator yields) are exactly
/// the characters of the whole byte sequence.
pub proof fn lemma_iters_cover(b: Seq<u8>, q: int)
    requires
        valid_utf8(b),
        is_char_boundary(b, q),
    ensures
        decode_utf8(b.subrange(0, q)) + decode_utf8(b.subrange(q, b.len() as int)) == decode_utf8(
            b,
        ),
{
    decode_utf8_split(b, q);
}

/// Decodes the character whose encoding starts at logical byte position `o`.
/// Returns the character and the width of its encoding.
pub(crate) fn decode_char_in(gb: &GapBuffer<u8>, o: usize) -> (r: (char, usize))
    requires
        gb.wf(),
        valid_utf8(gb@),
        o < gb@.len(),
        is_char_boundary(gb@, o as int),
    ensures
        ({
            let suf = gb@.subrange(o as int, gb@.len() as int);
            &&& valid_first_scalar(suf)
            &&& r.0 as u32 == decode_first_scalar(suf)
            &&& r.0 == decode_first_scalar(suf) as char
            &&& r.1 == length_of_first_scalar(suf)
            &&& 1 <= r.1 <= gb@.len() - o
        }),
{
    let ghost suf = gb@.subrange(o as int, gb@.len() as int);
    proof {
        lemma_boundary_step(gb@, o as int);
        lemma_scalar_len_first(suf);
        assert(suf[0] == gb@[o as int]);
    }
    let n = gb.len();
    let b0 = gb.get_one(o);
    let l = scalar_len(b0);
    let v: u32 = if l == 1 {
        let v1 = (b0 & 0x7f) as u32;
        proof {
            assert(v1 < 0x80) by (bit_vector)
                requires
                    v1 == (b0 & 0x7f) as u32,
            ;
        }
        v1
    } else if l == 2 {
        let b1 = gb.get_one(o + 1);
        let v2 = (((b0 & 0x1f) as u32) << 6u32) | ((b1 & 0x3f) as u32);
        proof {
            assert(suf[1] == gb@[o + 1]);
            assert(v2 <= 0x7ff) by (bit_vector)
                requires
                    v2 == (((b0 & 0x1f) as u32) << 6u32) | ((b1 & 0x3f) as u32),
            ;
        }
        v2
    } else if l == 3 {
        let b1 = gb.get_one(o + 1);
        let b2 = gb.get_one(o + 2);
        let v3 = (((b0 & 0x0f) as u32) << 12u32) | (((b1 & 0x3f) as u32) << 6u32) | ((b2 & 0x3f)
            as u32);
        proof {
            assert(suf[1] == gb@[o + 1]);
            assert(suf[2] == gb@[o + 2]);
            assert(v3 <= 0xffff) by (bit_vector)
                requires
                    v3 == (((b0 & 0x0f) as u32) << 12u32) | (((b1 & 0x3f) as u32) << 6u32) | ((
                    b2 & 0x3f) as u32),
            ;
        }
        v3
    } else {
        let b1 = gb.get_one(o + 1);
        let b2 = gb.get_one(o + 2);
        let b3 = gb.get_one(o + 3);
        proof {
            assert(suf[1] == gb@[o + 1]);
            assert(suf[2] == gb@[o + 2]);
            assert(suf[3] == gb@[o + 3]);
        }
        (((b0 & 0x07) as u32) << 18u32) | (((b1 & 0x3f) as u32) << 12u32) | (((b2 & 0x3f)
            as u32) << 6u32) | ((b3 & 0x3f) as u32)
    };
    proof {
        assert(v == decode_first_scalar(suf));
        assert(is_scalar(v));
    }
    let c = match char_from_u32(v) {
        Some(c) => c,
        None => {
            proof {
                assert(false);
            }
            ' '
        },
    };
    proof {
        vstd::utf8::char_u32_cast(c, v);
    }
    (c, l)
}

/// A start table built by the loading scan (one entry at zero, one after
/// every interior line feed, nothing else) satisfies `lines_wf`.
proof fn lemma_scan_gives_lines_wf(b: Seq<u8>, s: Seq<usize>, w: int)
    requires
        w == 1 || w == 2,
        w == 2 ==> crlf_strict(b),
        s.len() >= 1,
        s[0] == 0,
        forall|i: int| 0 <= i < s.len() ==> #[trigger] s[i] <= b.len(),
        forall|i: int| 1 <= i < s.len() ==> s[i - 1] + w <= #[trigger] s[i],
        forall|i: int|
            1 <= i < s.len() ==> b[#[trigger] s[i] - 1] == 10 && (w == 2 ==> b[s[i] - 2] == 13),
        forall|q: int|
            0 <= q < b.len() && #[trigger] b[q] == 10 && q + 1 < b.len() ==> exists|i: int|
                0 <= i < s.len() && s[i] == q + 1,
    ensures
        lines_wf(b, s, w),
{
    assert forall|i: int, j: int|
        #![trigger s[i], s[j]]
        0 <= i < j < s.len() implies s[i] + w <= s[j] by {
        lemma_starts_ordered(s, w, i, j);
    }
    assert forall|k: int|
        #![trigger b[k]]
        0 <= k < b.len() - 1 && b[k] == 10 implies exists|i: int|
            1 <= i < s.len() && #[trigger] s[i] == k + 1 by {
        let j = choose|j: int| 0 <= j < s.len() && s[j] == k + 1;
        // the entry at offset zero cannot sit after a line feed
        assert(j >= 1);
        assert(s[j] == k + 1);
    }
}

/// Adjacent ascending entries imply pairwise ascending entries.
proof fn lemma_starts_ordered(s: Seq<usize>, w: int, i: int, j: int)
    requires
        w >= 1,
        forall|t: int| 1 <= t < s.len() ==> s[t - 1] + w <= #[trigger] s[t],
        0 <= i <= j < s.len(),
    ensures
        i < j ==> s[i] + w <= s[j],
        s[i] <= s[j],
    decreases j - i,
{
    if i < j {
        lemma_starts_ordered(s, w, i, j - 1);
        assert(s[j - 1] + w <= s[j]);
    }
}


/// The number of line-feed bytes in a byte sequence.
pub open spec fn count_nl(b: Seq<u8>) -> nat
    decreases b.len(),
{
    if b.len() == 0 {
        0
    } else {
        count_nl(b.drop_last()) + if b.last() == 10 {
            1nat
        } else {
            0nat
        }
    }
}

/// Counting line feeds distributes over concatenation.
proof fn lemma_count_nl_concat(a: Seq<u8>, b: Seq<u8>)
    ensures
        count_nl(a + b) == count_nl(a) + count_nl(b),
    decreases b.len(),
{
    if b.len() == 0 {
        assert(a + b =~= a);
    } else {
        lemma_count_nl_concat(a, b.drop_last());
        assert((a + b).drop_last() =~= a + b.drop_last());
        assert((a + b).last() == b.last());
    }
}

/// A sequence without line feeds counts zero.
proof fn lemma_count_nl_none(a: Seq<u8>)
    requires
        forall|k: int| 0 <= k < a.len() ==> #[trigger] a[k] != 10,
    ensures
        count_nl(a) == 0,
    decreases a.len(),
{
    if a.len() > 0 {
        lemma_count_nl_none(a.drop_last());
    }
}

/// The cumulative raw byte length of lines `0 .. i`.
pub open spec fn cum_raw(buf: TextBuffer, i: int) -> int
    decreases i,
{
    if i <= 0 {
        0
    } else {
        cum_raw(buf, i - 1) + (buf.line_end(i - 1) - buf.line_start(i - 1))
    }
}

impl TextBuffer {
    /// Start offsets grow at least one byte per line.
    proof fn lemma_start_lower(self, i: int)
        requires
            self.wf(),
            0 <= i < self.line_count(),
        ensures
            self.line_start(i) >= i,
        decreases i,
    {
        if i > 0 {
            self.lemma_start_lower(i - 1);
            assert(self.starts()[i - 1] + self.sep_w() <= self.starts()[i]);
        }
    }

    /// A buffer of `n` bytes holds at most `n + 1` lines.
    pub proof fn lemma_line_count_bound(self)
        requires
            self.wf(),
        ensures
            self.line_count() <= self.bytes().len() + 1,
    {
        self.lemma_start_lower(self.line_count() - 1);
        assert(self.line_start(self.line_count() - 1) <= self.bytes().len());
    }

    /// The first `i` lines' bytes hold exactly `i` line feeds.
    proof fn lemma_prefix_nl(self, i: int)
        requires
            self.wf(),
            0 <= i < self.line_count(),
        ensures
            count_nl(self.bytes().subrange(0, self.line_start(i))) == i,
        decreases i,
    {
        let b = self.bytes();
        let s = self.starts();
        if i == 0 {
            assert(b.subrange(0, 0) =~= Seq::<u8>::empty());
        } else {
            self.lemma_prefix_nl(i - 1);
            let p = self.line_start(i - 1);
            let q = self.line_start(i);
            let span = b.subrange(p, q);
            assert(b.subrange(0, q) =~= b.subrange(0, p) + span);
            lemma_count_nl_concat(b.subrange(0, p), span);
            // the span is the raw line: no line feed before its final one
            assert(span.last() == b[q - 1]);
            assert(b[q - 1] == 10);
            assert forall|k: int| 0 <= k < span.len() - 1 implies #[trigger] span.drop_last()[k]
                != 10 by {
                assert(span.drop_last()[k] == b[p + k]);
                if b[p + k] == 10 {
                    assert(p + k < b.len() - 1) by {
                        assert(p + k + 1 < q);
                        assert(q <= b.len());
                    }
                    let j = choose|j: int| 1 <= j < s.len() && #[trigger] s[j] == p + k + 1;
                    if j <= i - 1 {
                        assert(s[j] <= s[i - 1]);
                    } else {
                        assert(s[i] <= s[j]);
                    }
                    assert(false);
                }
            }
            lemma_count_nl_none(span.drop_last());
            assert(count_nl(span) == 1);
        }
    }

    /// The line count equals the number of separators plus one; a separator
    /// that ends the buffer terminates its own line rather than opening a
    /// new one, and each line-start offset is the cumulative byte length of
    /// the lines before it.
    pub proof fn lemma_total_lines_counts_separators(self)
        requires
            self.wf(),
        ensures
            self.line_count() == 1 + count_nl(self.bytes()) - (if self.last_has_sep() {
                1int
            } else {
                0int
            }),
            forall|i: int|
                0 <= i < self.line_count() ==> self.line_start(i) == #[trigger] cum_raw(self, i),
    {
        let b = self.bytes();
        let s = self.starts();
        let n = self.line_count();
        self.lemma_prefix_nl(n - 1);
        let p = self.line_start(n - 1);
        let tail = b.subrange(p, b.len() as int);
        assert(b =~= b.subrange(0, p) + tail);
        lemma_count_nl_concat(b.subrange(0, p), tail);
        // line feeds in the last line: only a trailing separator
        if self.last_has_sep() {
            assert(tail.last() == b[b.len() - 1]);
            assert forall|k: int| 0 <= k < tail.len() - 1 implies #[trigger] tail.drop_last()[k]
                != 10 by {
                assert(tail.drop_last()[k] == b[p + k]);
            }
            lemma_count_nl_none(tail.drop_last());
            assert(count_nl(tail) == 1);
        } else {
            assert forall|k: int| 0 <= k < tail.len() implies #[trigger] tail[k] != 10 by {
                assert(tail[k] == b[p + k]);
                if b[p + k] == 10 {
                    assert(p + k == b.len() - 1);
                    self.lemma_final_newline_is_sep();
                    assert(p == b.len());
                }
            }
            lemma_count_nl_none(tail);
        }
        assert forall|i: int| 0 <= i < n implies self.line_start(i) == #[trigger] cum_raw(
            self,
            i,
        ) by {
            self.lemma_cum_raw(i);
        }
    }

    proof fn lemma_cum_raw(self, i: int)
        requires
            self.wf(),
            0 <= i < self.line_count(),
        ensures
            self.line_start(i) == cum_raw(self, i),
        decreases i,
    {
        if i > 0 {
            self.lemma_cum_raw(i - 1);
            assert(self.line_end(i - 1) == self.line_start(i));
        }
    }

    /// For a line of ASCII characters the raw byte length is the visible
    /// character count plus the separator width (one for LF, two for CRLF),
    /// except on a last line without a trailing separator.  Lines holding
    /// multi-byte characters take more bytes than characters.
    pub proof fn lemma_raw_len_counts_separator(self, i: int)
        requires
            self.wf(),
            0 <= i < self.line_count(),
            vstd::utf8::is_ascii_chars(self.line_view(i)),
        ensures
            self.line_end(i) - self.line_start(i) == self.line_view(i).len() + (
            if self.content_end(i) < self.line_end(i) {
                self.sep_w()
            } else {
                0int
            }),
    {
        self.lemma_line_valid(i);
        self.lemma_line_spans(i);
        let lb = self.line_bytes(i);
        vstd::utf8::decode_utf8_encode_utf8(lb);
        vstd::utf8::is_ascii_chars_encode_utf8(self.line_view(i));
        assert(lb.len() == self.line_view(i).len());
    }
}

/// Inserting characters into a line and then removing the same span restores
/// the line: composing the character-level splice of an insertion at a column
/// with the splice of a removal of the inserted characters at the same
/// column yields the original characters.
pub proof fn lemma_insert_then_remove_restores(l: Seq<char>, d: Seq<char>, col: int)
    requires
        0 <= col <= l.len(),
    ensures
        ({
            let m = l.take(col) + d + l.skip(col);
            m.take(col) + m.skip(col + d.len()) == l
        }),
{
    let m = l.take(col) + d + l.skip(col);
    assert(m.take(col) =~= l.take(col));
    assert(m.skip(col + d.len()) =~= l.skip(col));
    assert(m.take(col) + m.skip(col + d.len()) =~= l);
}

} // verus!
