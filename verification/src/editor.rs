//! The mode controller: buffers, cursors, the current mode, the pending
//! motion, and the dispatch of parsed motions into buffer and cursor
//! mutations.  Input arrives as plain decoded characters and named keys;
//! anything the controller cannot do itself (file reads and writes, quitting
//! the process) is handed back as a command-bar action.

use vstd::prelude::*;
use vstd::pervasive::VecAdditionalExecFns;

verus! {

use crate::text_buffer::{TextBuffer, LinePos, pos_le};
use crate::vim_commands::{
    Motion, Action, Object, Modifier, count, find_next_word_start, find_next_WORD_start,
    find_current_word_start, find_current_word_end, find_current_WORD_start,
    find_current_WORD_end, find_previous_word_start, find_next_word_end, pos_in,
};
use crate::command_bar::{match_cmd, BarCommand, CommandBarAction};
use crate::search::{search, pos_lt};
use crate::indent::indent_wanted;
use crate::chars::push_char;

/// The editing modes of the state machine.
#[derive(PartialEq, Eq, Structural, Clone, Copy, Debug)]
pub enum EditorMode {
    Insert,
    Normal,
    Visual,
    VisualLine,
    CommandBar,
    Search,
}

/// A named key delivered by the windowing layer alongside typed characters.
#[derive(PartialEq, Eq, Structural, Clone, Copy, Debug)]
pub enum SpecialKey {
    Backspace,
    Enter,
    Escape,
    Control,
    Tab,
}

/// A one-indexed cursor with a remembered column for vertical motion.
#[derive(PartialEq, Eq, Structural, Clone, Copy, Debug)]
pub struct CursorPos {
    pub x: usize,
    pub y: usize,
    pub wanted_x: usize,
    pub buffer: usize,
}

impl CursorPos {
    pub fn new(buffer: usize) -> (r: Self)
        ensures
            r.x == 1 && r.y == 1 && r.wanted_x == 1 && r.buffer == buffer,
    {
        CursorPos { x: 1, y: 1, wanted_x: 1, buffer }
    }

    /// The zero-indexed position under this cursor.
    pub fn to_linepos(&self) -> (r: LinePos)
        requires
            self.x >= 1,
            self.y >= 1,
        ensures
            r.line == self.y - 1,
            r.col == self.x - 1,
    {
        LinePos { line: self.y - 1, col: self.x - 1 }
    }

    /// The zero-indexed (line, column) pair under this cursor.
    pub fn to_line_col(&self) -> (r: (usize, usize))
        requires
            self.x >= 1,
            self.y >= 1,
        ensures
            r.0 == self.y - 1,
            r.1 == self.x - 1,
    {
        (self.y - 1, self.x - 1)
    }

    /// Moves the cursor to a zero-indexed position, remembering the column.
    pub fn from_linepos(&mut self, pos: LinePos)
        requires
            pos.line < usize::MAX,
            pos.col < usize::MAX,
        ensures
            final(self).x == pos.col + 1,
            final(self).y == pos.line + 1,
            final(self).wanted_x == pos.col + 1,
            final(self).buffer == old(self).buffer,
    {
        self.x = pos.col + 1;
        self.y = pos.line + 1;
        self.wanted_x = self.x;
    }
}

/// Hands out the next buffer identity and advances the counter.
pub fn next_buffer_id(last: &mut usize) -> (r: usize)
    requires
        *old(last) < usize::MAX,
    ensures
        r == *old(last),
        *final(last) == *old(last) + 1,
{
    let id = *last;
    *last = *last + 1;
    id
}

/// A cursor that the controller accepts for a buffer: inside the line table,
/// at most one column past the line's last character.
pub open spec fn cursor_ok(buf: TextBuffer, c: CursorPos) -> bool {
    &&& 1 <= c.y <= buf.line_count()
    &&& 1 <= c.x <= buf.line_view(c.y - 1).len() + 1
    &&& c.wanted_x >= 1
}

/// The editor: buffers with their cursors and backing paths, the current
/// mode, the pending motion, and the command-bar state.
pub struct Editor {
    pub buffers: Vec<TextBuffer>,
    pub cursors: Vec<CursorPos>,
    pub paths: Vec<Option<String>>,
    pub current_buffer: usize,
    pub search_results: Vec<LinePos>,
    pub command_bar_input: Vec<char>,
    pub cmd_bar_cursor_x: usize,
    pub visual_range_anchor: LinePos,
    pub motion: Motion,
    pub mode: EditorMode,
    pub last_buffer_id: usize,
}

impl Editor {
    /// Every buffer is well-formed and its cursor is inside it.
    pub open spec fn wf(self) -> bool {
        &&& self.buffers.len() >= 1
        &&& self.cursors.len() == self.buffers.len()
        &&& self.paths.len() == self.buffers.len()
        &&& self.current_buffer < self.buffers.len()
        &&& forall|i: int| 0 <= i < self.buffers.len() ==> (#[trigger] self.buffers[i]).wf()
        &&& forall|i: int|
            0 <= i < self.buffers.len() ==> cursor_ok(self.buffers[i], #[trigger] self.cursors[i])
    }

    /// Starts a session on one buffer.
    pub fn new(buf: TextBuffer, path: Option<String>) -> (r: Self)
        requires
            buf.wf(),
        ensures
            r.wf(),
            r.mode == EditorMode::Normal,
            r.buffers.len() == 1,
            r.buffers[0] == buf,
            r.paths[0] == path,
            r.cursors[0].x == 1 && r.cursors[0].y == 1 && r.cursors[0].wanted_x == 1,
            r.current_buffer == 0,
            r.motion.is_empty(),
            r.search_results@.len() == 0,
            r.command_bar_input@.len() == 0,
    {
        proof {
            assert(buf.line_count() >= 1);
        }
        let mut buffers: Vec<TextBuffer> = Vec::new();
        let mut cursors: Vec<CursorPos> = Vec::new();
        let mut paths: Vec<Option<String>> = Vec::new();
        buffers.push(buf);
        cursors.push(CursorPos::new(0));
        paths.push(path);
        Editor {
            buffers,
            cursors,
            paths,
            current_buffer: 0,
            search_results: Vec::new(),
            command_bar_input: Vec::new(),
            cmd_bar_cursor_x: 0,
            visual_range_anchor: LinePos { line: 0, col: 0 },
            motion: Motion::new(),
            mode: EditorMode::Normal,
            last_buffer_id: 1,
        }
    }

    /// Adds a freshly loaded buffer and switches to it.
    pub fn add_buffer(&mut self, buf: TextBuffer, path: Option<String>)
        requires
            old(self).wf(),
            buf.wf(),
        ensures
            final(self).wf(),
            final(self).buffers.len() == old(self).buffers.len() + 1,
            final(self).buffers[final(self).buffers.len() - 1] == buf,
            final(self).paths[final(self).paths.len() - 1] == path,
            final(self).current_buffer == final(self).buffers.len() - 1,
            forall|i: int|
                0 <= i < old(self).buffers.len() ==> #[trigger] final(self).buffers[i] == old(self).buffers[i],
    {
        proof {
            assert(buf.line_count() >= 1);
        }
        let id = if self.last_buffer_id < usize::MAX {
            next_buffer_id(&mut self.last_buffer_id)
        } else {
            self.last_buffer_id
        };
        self.buffers.push(buf);
        self.cursors.push(CursorPos::new(id));
        self.paths.push(path);
        self.current_buffer = self.buffers.len() - 1;
    }

    /// The bytes the current buffer would write to disk, with its path.
    pub fn current_content(&self) -> (r: (Vec<u8>, Option<String>))
        requires
            self.wf(),
        ensures
            r.0@ == self.buffers[self.current_buffer as int].bytes(),
            (r.1 is Some) == (self.paths[self.current_buffer as int] is Some),
            r.1 matches Some(p) ==> self.paths[self.current_buffer as int] matches Some(q) && p@
                == q@,
    {
        let buf = &self.buffers[self.current_buffer];
        let bytes = buf.content();
        let path = match &self.paths[self.current_buffer] {
            Some(p) => Some(clone_string(p)),
            None => None,
        };
        (bytes, path)
    }
}

/// A single character's UTF-8 bytes are valid and free of separator bytes
/// when the character is neither a line feed nor a carriage return.
pub proof fn lemma_encode_no_sep(c: char)
    requires
        c != '\n',
        c != '\r',
    ensures
        vstd::utf8::valid_utf8(vstd::utf8::encode_utf8(seq![c])),
        forall|j: int|
            0 <= j < vstd::utf8::encode_utf8(seq![c]).len() ==> #[trigger] vstd::utf8::encode_utf8(
                seq![c],
            )[j] != 10 && vstd::utf8::encode_utf8(seq![c])[j] != 13,
{
    vstd::utf8::encode_utf8_valid_utf8(seq![c]);
    let v = c as u32;
    vstd::utf8::char_is_scalar(c);
    vstd::utf8::char_u32_cast(c, v);
    let e0 = vstd::utf8::encode_scalar(v);
    assert(vstd::utf8::encode_utf8(seq![c]) =~= e0) by {
        assert(seq![c].drop_first() =~= Seq::<char>::empty());
        assert(vstd::utf8::encode_utf8(Seq::<char>::empty()) =~= Seq::<u8>::empty());
        assert(seq![c][0] == c);
    }
    if vstd::utf8::has_width_1_encoding(v) {
        assert(v != 10 && v != 13) by {
            if v == 10 {
                assert((10u32 as char) == c);
                assert(('\n' as u32) == 10);
                vstd::utf8::char_u32_cast('\n', 10);
            }
            if v == 13 {
                assert((13u32 as char) == c);
                assert(('\r' as u32) == 13);
                vstd::utf8::char_u32_cast('\r', 13);
            }
        }
        assert(e0[0] == (v & 0x7f) as u8);
        assert(v < 0x80 && v != 10 && v != 13 ==> (v & 0x7f) as u8 != 10 && (v & 0x7f) as u8
            != 13) by (bit_vector);
    } else {
        assert forall|j: int| 0 <= j < e0.len() implies #[trigger] e0[j] >= 0x80 by {
            if vstd::utf8::has_width_2_encoding(v) {
                assert((0xC0 | ((v >> 6) & 0x1F) as u8) >= 0x80) by (bit_vector);
                assert((0x80 | (v & 0x3F) as u8) >= 0x80) by (bit_vector);
            } else if vstd::utf8::has_width_3_encoding(v) {
                assert((0xE0 | ((v >> 12) & 0x0F) as u8) >= 0x80) by (bit_vector);
                assert((0x80 | ((v >> 6) & 0x3F) as u8) >= 0x80) by (bit_vector);
                assert((0x80 | (v & 0x3F) as u8) >= 0x80) by (bit_vector);
            } else {
                assert((0xF0 | ((v >> 18) & 0x7) as u8) >= 0x80) by (bit_vector);
                assert((0x80 | ((v >> 12) & 0x3F) as u8) >= 0x80) by (bit_vector);
                assert((0x80 | ((v >> 6) & 0x3F) as u8) >= 0x80) by (bit_vector);
                assert((0x80 | (v & 0x3F) as u8) >= 0x80) by (bit_vector);
            }
        }
    }
}

/// Whether a named key was pressed this tick.
pub fn pressed(specials: &Vec<SpecialKey>, wanted: SpecialKey) -> (r: bool)
    ensures
        r == specials@.contains(wanted),
{
    let n = specials.len();
    let mut i: usize = 0;
    while i < n
        invariant
            n == specials@.len(),
            i <= n,
            forall|j: int| 0 <= j < i ==> #[trigger] specials@[j] != wanted,
        decreases n - i,
    {
        if specials[i] == wanted {
            return true;
        }
        i = i + 1;
    }
    proof {
        assert forall|j: int| 0 <= j < specials@.len() implies #[trigger] specials@[j]
            != wanted by {}
    }
    false
}

/// Moves a cursor onto a checked position, remembering the column.
fn set_cursor(cursor: &mut CursorPos, buf: &TextBuffer, pos: LinePos)
    requires
        buf.wf(),
        pos_in(*buf, pos),
    ensures
        cursor_ok(*buf, *final(cursor)),
        final(cursor).buffer == old(cursor).buffer,
        pos.line < usize::MAX && pos.col < usize::MAX ==> final(cursor).y == pos.line + 1
            && final(cursor).x == pos.col + 1 && final(cursor).wanted_x == final(cursor).x,
{
    let total = buf.total_lines();
    let ll = buf.line_len(pos.line);
    if pos.line < usize::MAX && pos.col < usize::MAX {
        cursor.from_linepos(pos);
    } else {
        cursor.x = 1;
        cursor.y = 1;
        cursor.wanted_x = 1;
        proof {
            assert(buf.line_count() >= 1);
        }
    }
}

/// Clamps a cursor into the buffer: line inside the table, column at most
/// one past the line's last character.
fn clamp_cursor(cursor: &mut CursorPos, buf: &TextBuffer)
    requires
        buf.wf(),
    ensures
        cursor_ok(*buf, *final(cursor)),
        final(cursor).buffer == old(cursor).buffer,
        cursor_ok(*buf, *old(cursor)) ==> *final(cursor) == *old(cursor),
{
    let total = buf.total_lines();
    if cursor.y < 1 {
        cursor.y = 1;
    }
    if cursor.y > total {
        cursor.y = total;
    }
    let ll = buf.line_len(cursor.y - 1);
    if cursor.x < 1 {
        cursor.x = 1;
    }
    if ll < usize::MAX {
        if cursor.x > ll + 1 {
            cursor.x = ll + 1;
        }
    } else {
        if cursor.x > ll {
            cursor.x = ll;
        }
    }
    if cursor.wanted_x < 1 {
        cursor.wanted_x = 1;
    }
}

/// Clones a string, keeping its characters.
fn clone_string(s: &String) -> (r: String)
    ensures
        r@ == s@,
{
    s.clone()
}

impl Editor {
    /// Writes a locally edited buffer and cursor back into the session.
    fn put_back(&mut self, buffer: TextBuffer, cursor: CursorPos)
        requires
            old(self).wf_without_current(),
            buffer.wf(),
            cursor_ok(buffer, cursor),
        ensures
            final(self).wf(),
            final(self).mode == old(self).mode,
            final(self).motion == old(self).motion,
            final(self).buffers.len() == old(self).buffers.len() + 1,
            final(self).current_buffer == old(self).current_buffer,
            final(self).visual_range_anchor == old(self).visual_range_anchor,
            final(self).buffers@ == old(self).buffers@.insert(
                old(self).current_buffer as int,
                buffer,
            ),
            final(self).cursors@ == old(self).cursors@.update(
                old(self).current_buffer as int,
                cursor,
            ),
            final(self).search_results == old(self).search_results,
            final(self).command_bar_input == old(self).command_bar_input,
            final(self).paths == old(self).paths,
            final(self).last_buffer_id == old(self).last_buffer_id,
    {
        let cur = self.current_buffer;
        self.buffers.insert(cur, buffer);
        self.cursors.set(cur, cursor);
        proof {
            assert forall|i: int| 0 <= i < self.buffers.len() implies (
            #[trigger] self.buffers[i]).wf() by {
                if i < cur {
                    assert(self.buffers[i] == old(self).buffers[i]);
                } else if i > cur {
                    assert(self.buffers[i] == old(self).buffers[i - 1]);
                }
            }
            assert forall|i: int| 0 <= i < self.buffers.len() implies cursor_ok(
                self.buffers[i],
                #[trigger] self.cursors[i],
            ) by {
                if i < cur {
                    assert(self.buffers[i] == old(self).buffers[i]);
                    assert(self.cursors[i] == old(self).cursors[i]);
                    assert(cursor_ok(old(self).buffers[i], old(self).cursors[i]));
                } else if i > cur {
                    assert(self.buffers[i] == old(self).buffers[i - 1]);
                    assert(self.cursors[i] == old(self).cursors[i]);
                    assert(cursor_ok(old(self).buffers[i - 1], old(self).cursors[i]));
                } else {
                    assert(self.buffers[i] == buffer);
                    assert(self.cursors[i] == cursor);
                }
            }
        }
    }

    /// The session with the current buffer temporarily taken out for editing.
    pub open spec fn wf_without_current(self) -> bool {
        &&& self.cursors.len() == self.buffers.len() + 1
        &&& self.paths.len() == self.buffers.len() + 1
        &&& self.current_buffer <= self.buffers.len()
        &&& forall|i: int| 0 <= i < self.buffers.len() ==> (#[trigger] self.buffers[i]).wf()
        &&& forall|i: int|
            0 <= i < self.buffers.len() && i < self.current_buffer ==> cursor_ok(
                self.buffers[i],
                #[trigger] self.cursors[i],
            )
        &&& forall|i: int|
            self.current_buffer < i < self.cursors.len() ==> cursor_ok(
                self.buffers[i - 1],
                #[trigger] self.cursors[i],
            )
    }

    /// Dispatches the pending motion against the current buffer: a pure
    /// cursor move when no action is pending, a removal when deleting, or a
    /// mode switch.  Returns whether a dispatchable object was present, so
    /// the caller can clear the motion.
    #[verifier::rlimit(100)]
    #[verifier::spinoff_prover]
    pub fn execute_cmd(&mut self) -> (r: bool)
        requires
            old(self).wf(),
        ensures
            final(self).wf(),
            r == (old(self).motion.object is Some),
            final(self).motion == old(self).motion,
            old(self).motion.object is None ==> *final(self) == *old(self),
            final(self).buffers.len() == old(self).buffers.len(),
            final(self).current_buffer == old(self).current_buffer,
            old(self).motion.object == Some(Object::Insert) ==> final(self).mode
                == EditorMode::Insert,
            old(self).motion.object == Some(Object::Append) ==> final(self).mode
                == EditorMode::Insert,
            old(self).motion.object == Some(Object::InsertLineUp) ==> final(self).mode
                == EditorMode::Insert,
            old(self).motion.object == Some(Object::InsertLineDown) ==> final(self).mode
                == EditorMode::Insert,
            old(self).motion.object == Some(Object::NormalMode) ==> final(self).mode
                == EditorMode::Normal,
            old(self).motion.object == Some(Object::VisualMode) ==> final(self).mode
                == EditorMode::Visual && final(self).visual_range_anchor == (LinePos {
                line: (old(self).cursors[old(self).current_buffer as int].y - 1) as usize,
                col: (old(self).cursors[old(self).current_buffer as int].x - 1) as usize,
            }),
            old(self).motion.object == Some(Object::VisualLineMode) ==> final(self).mode
                == EditorMode::VisualLine,
            old(self).motion.object == Some(Object::CommandBarMode) ==> final(self).mode
                == EditorMode::CommandBar,
            old(self).motion.object == Some(Object::SearchMode) ==> final(self).mode
                == EditorMode::Search,
            ({
                let o = old(self).motion.object;
                o == Some(Object::Up) || o == Some(Object::Down) || o == Some(Object::Left) || o
                    == Some(Object::Right) || o == Some(Object::LineStart) || o == Some(
                    Object::LineEnd,
                ) || o == Some(Object::CharUnderCursor) || o == Some(Object::Line) || o == Some(
                    Object::BackWord,
                ) || o == Some(Object::WordEnd) || o == Some(Object::Word) || o == Some(
                    Object::WORD,
                ) || o == Some(Object::BackWORD) || o == Some(Object::WORDEnd) || o == Some(
                    Object::NextSearchResult,
                ) || o == Some(Object::PreviousSearchResult) || o is None
            }) ==> final(self).mode == old(self).mode,
            // a pure motion in normal mode changes nothing but the cursor
            ({
                let o = old(self).motion.object;
                (old(self).mode == EditorMode::Normal && old(self).motion.action is None && (o
                    == Some(Object::Up) || o == Some(Object::Down) || o == Some(Object::Left)
                    || o == Some(Object::Right) || o == Some(Object::LineStart) || o == Some(
                    Object::LineEnd,
                ) || o == Some(Object::Line) || o == Some(Object::BackWord) || o == Some(
                    Object::WordEnd,
                ) || o == Some(Object::Word) || o == Some(Object::WORD) || o == Some(
                    Object::BackWORD,
                ) || o == Some(Object::WORDEnd) || o == Some(Object::NextSearchResult) || o
                    == Some(Object::PreviousSearchResult))) ==> final(self).buffers@ == old(self).buffers@ && final(self).visual_range_anchor == old(self).visual_range_anchor
                    && final(self).search_results == old(self).search_results && final(self).command_bar_input == old(self).command_bar_input && final(self).paths == old(self).paths
            }),
            // a motion without the delete action (and no line opening) never
            // touches any buffer's text
            (old(self).motion.action != Some(Action::Delete) && old(self).motion.object != Some(
                Object::InsertLineUp,
            ) && old(self).motion.object != Some(Object::InsertLineDown)) ==> final(self).buffers@ == old(self).buffers@,
            // horizontal motions place the cursor exactly
            ({
                let cur = old(self).current_buffer as int;
                let c = old(self).cursors[cur];
                let b = old(self).buffers[cur];
                let ll = b.line_view(c.y - 1).len() as int;
                &&& (old(self).motion.object == Some(Object::Left) && old(self).motion.action
                    is None ==> final(self).cursors[cur].y == c.y && final(self).cursors[cur].x as int == (if c.x > 1 {
                    c.x - 1
                } else {
                    c.x as int
                }))
                &&& (old(self).motion.object == Some(Object::Right) && old(self).motion.action
                    is None ==> final(self).cursors[cur].y == c.y && final(self).cursors[cur].x as int == (if c.x < ll {
                    c.x + 1
                } else if old(self).mode == EditorMode::Visual && c.x == ll && ll < usize::MAX {
                    c.x + 1
                } else {
                    c.x as int
                }))
                &&& (old(self).motion.object == Some(Object::LineEnd) && old(self).motion.action
                    is None ==> final(self).cursors[cur].x as int == (if old(self).mode
                    == EditorMode::Visual && ll < usize::MAX {
                    ll + 1
                } else if ll >= 1 {
                    ll
                } else {
                    1
                }) && final(self).cursors[cur].wanted_x == final(self).cursors[cur].x && final(self).cursors[cur].y == c.y)
            }),
            // the cursor after the deleting motions
            ({
                let cur = old(self).current_buffer as int;
                let c = old(self).cursors[cur];
                let b = old(self).buffers[cur];
                let ll = b.line_view(c.y - 1).len() as int;
                let times: int = match old(self).motion.modifier {
                    Some(Modifier::Count(n)) => n as int,
                    _ => 1,
                };
                let cnt = if times <= ll - (c.x - 1) {
                    times
                } else {
                    ll - (c.x - 1)
                };
                &&& (old(self).motion.object == Some(Object::CharUnderCursor) && old(self).motion.action == Some(Action::Delete) && ll > 0 && c.x - 1 < ll ==> (forall|
                    j: int,
                |
                    0 <= j < b.line_count() && j != c.y - 1 ==> #[trigger] final(self).buffers[cur].line_view(j) == b.line_view(j)) && final(self).cursors[cur].y
                    == c.y && final(self).cursors[cur].x as int == (if c.x - 1 >= ll - cnt && c.x
                    > 1 {
                    c.x - 1
                } else {
                    c.x as int
                }))
                &&& (old(self).motion.object == Some(Object::Line) && old(self).motion.action
                    == Some(Action::Delete) ==> ({
                    let t2: int = if b.line_count() > 1 {
                        b.line_count() - 1
                    } else {
                        1
                    };
                    let ny: int = if c.y > t2 {
                        t2
                    } else {
                        c.y as int
                    };
                    let l2 = final(self).buffers[cur].line_view(ny - 1).len() as int;
                    &&& final(self).cursors[cur].y as int == ny
                    &&& final(self).cursors[cur].x as int == (if c.x > l2 {
                        if l2 >= 1 {
                            l2
                        } else {
                            1
                        }
                    } else {
                        c.x as int
                    })
                }))
            }),
            // deleting the character(s) under the cursor splices the line
            ({
                let cur = old(self).current_buffer as int;
                let c = old(self).cursors[cur];
                let b = old(self).buffers[cur];
                let ll = b.line_view(c.y - 1).len() as int;
                let times: int = match old(self).motion.modifier {
                    Some(Modifier::Count(n)) => n as int,
                    _ => 1,
                };
                let cnt = if times <= ll - (c.x - 1) {
                    times
                } else {
                    ll - (c.x - 1)
                };
                (old(self).motion.object == Some(Object::CharUnderCursor) && old(self).motion.action == Some(Action::Delete) && ll > 0 && c.x - 1 < ll) ==> final(self).buffers[cur].line_view(c.y - 1) == b.line_view(c.y - 1).take(c.x - 1)
                    + b.line_view(c.y - 1).skip(c.x - 1 + cnt)
            }),
            // deleting the line removes it (or empties a one-line buffer)
            ({
                let cur = old(self).current_buffer as int;
                let c = old(self).cursors[cur];
                let b = old(self).buffers[cur];
                (old(self).motion.object == Some(Object::Line) && old(self).motion.action == Some(
                    Action::Delete,
                )) ==> ({
                    &&& (b.line_count() > 1 ==> final(self).buffers[cur].line_count()
                        == b.line_count() - 1 && (forall|j: int|
                        0 <= j < c.y - 1 ==> #[trigger] final(self).buffers[cur].line_view(j)
                            == b.line_view(j)) && (forall|j: int|
                        c.y - 1 <= j < b.line_count() - 1 ==> #[trigger] final(self).buffers[cur].line_view(j) == b.line_view(j + 1)))
                    &&& (b.line_count() == 1 ==> final(self).buffers[cur].line_count() == 1
                        && final(self).buffers[cur].line_view(0) == Seq::<char>::empty())
                })
            }),
            // the plain delete-word: with no modifier pending, deleting up
            // to a next word start on the same line removes the characters
            // from the cursor up to that word
            ({
                let cur = old(self).current_buffer as int;
                let c = old(self).cursors[cur];
                let b = old(self).buffers[cur];
                let cpos = LinePos { line: (c.y - 1) as usize, col: (c.x - 1) as usize };
                let lv = b.line_view(cpos.line as int);
                let res = crate::vim_commands::next_word_result(
                    crate::vim_commands::stream_from(b, cpos),
                    cpos.col as int,
                );
                (old(self).motion.object == Some(Object::Word) && old(self).motion.action == Some(
                    Action::Delete,
                ) && old(self).motion.modifier is None && b.bytes().len() < usize::MAX / 2) ==> ({
                    &&& (res is None ==> final(self).buffers@ == old(self).buffers@ && final(self).cursors@ == old(self).cursors@)
                    &&& (res matches Some(rc) ==> (rc.0 == 0 && cpos.col < rc.1 <= lv.len()
                        ==> ({
                        &&& final(self).buffers[cur].line_count() == b.line_count()
                        &&& final(self).buffers[cur].line_view(cpos.line as int) == lv.take(
                            cpos.col as int,
                        ) + lv.skip(rc.1)
                        &&& (forall|j: int|
                            0 <= j < b.line_count() && j != cpos.line ==> #[trigger] final(self).buffers[cur].line_view(j) == b.line_view(j))
                        &&& final(self).cursors@ == old(self).cursors@
                    })))
                })
            }),
            // deleting the visual selection removes the inclusive range and
            // returns to normal mode
            ({
                let cur = old(self).current_buffer as int;
                let c = old(self).cursors[cur];
                let b = old(self).buffers[cur];
                let cpos = LinePos { line: (c.y - 1) as usize, col: (c.x - 1) as usize };
                let anchor = old(self).visual_range_anchor;
                let lo = if pos_le(anchor, cpos) {
                    anchor
                } else {
                    cpos
                };
                let hi = if pos_le(anchor, cpos) {
                    cpos
                } else {
                    anchor
                };
                let n = b.line_count();
                let lv = b.line_view(lo.line as int);
                let ev = b.line_view(hi.line as int);
                (old(self).motion.object == Some(Object::VisualSelection) && old(self).motion.action == Some(Action::Delete) && old(self).mode == EditorMode::Visual
                    && hi.line < n && lo.col <= lv.len() && hi.col <= ev.len() && (lo.line
                    != hi.line || lo.col <= hi.col)) ==> ({
                    &&& final(self).mode == EditorMode::Normal
                    &&& (lo.line < usize::MAX && lo.col < usize::MAX ==> ({
                        let l2 = final(self).buffers[cur].line_view(lo.line as int).len() as int;
                        let c2: int = if lo.col <= l2 {
                            lo.col as int
                        } else {
                            l2
                        };
                        &&& final(self).cursors[cur].y as int == lo.line + 1
                        &&& final(self).cursors[cur].x as int == c2 + 1
                        &&& final(self).cursors[cur].wanted_x == final(self).cursors[cur].x
                    }))
                    &&& (lo.line == hi.line ==> ({
                        let cnt = if hi.col + 1 - lo.col <= lv.len() - lo.col {
                            hi.col + 1 - lo.col
                        } else {
                            lv.len() - lo.col
                        };
                        if hi.col == lv.len() && lo.line < n - 1 {
                            final(self).buffers[cur].line_count() == n - 1 && final(self).buffers[cur].line_view(lo.line as int) == lv.take(lo.col as int)
                                + b.line_view(lo.line + 1)
                        } else {
                            final(self).buffers[cur].line_count() == n && final(self).buffers[cur].line_view(lo.line as int) == lv.take(lo.col as int)
                                + lv.skip(lo.col + cnt)
                        }
                    }))
                    &&& (lo.line < hi.line ==> ({
                        let head = if hi.col + 1 <= ev.len() {
                            hi.col + 1
                        } else {
                            ev.len() as int
                        };
                        final(self).buffers[cur].line_count() == n - (hi.line - lo.line)
                            && final(self).buffers[cur].line_view(lo.line as int) == lv.take(
                            lo.col as int,
                        ) + ev.skip(head)
                    }))
                })
            }),
    {
        let obj = match self.motion.object {
            Some(o) => o,
            None => {
                return false;
            },
        };
        let action = self.motion.action;
        let modifier = self.motion.modifier;
        let cur = self.current_buffer;
        let mut buffer = self.buffers.remove(cur);
        let mut cursor = self.cursors[cur];
        let cpos = cursor.to_linepos();
        let total = buffer.total_lines();
        let ll = buffer.line_len(cursor.y - 1);

        match obj {
            Object::BackWord => {
                do_back_word(&mut buffer, &mut cursor, action);
            },
            Object::BackWORD => {
                // no backward WORD motion is defined yet; nothing moves
            },
            Object::WORDEnd => {
                // no WORD-end motion is defined yet; nothing moves
            },
            Object::Word | Object::WORD => {
                do_word(
                    &mut buffer,
                    &mut cursor,
                    &mut self.mode,
                    &mut self.visual_range_anchor,
                    obj,
                    action,
                    modifier,
                );
            },
            Object::WordEnd => {
                do_word_end(&mut buffer, &mut cursor, action, modifier);
            },
            Object::Append => {
                self.mode = EditorMode::Insert;
                if ll > 0 && cursor.x <= ll && cursor.x < usize::MAX {
                    cursor.x = cursor.x + 1;
                }
            },
            Object::Insert => {
                self.mode = EditorMode::Insert;
            },
            Object::NormalMode => {
                self.mode = EditorMode::Normal;
            },
            Object::VisualMode => {
                self.mode = EditorMode::Visual;
                self.visual_range_anchor = cpos;
            },
            Object::VisualLineMode => {
                self.mode = EditorMode::VisualLine;
                self.visual_range_anchor = cpos;
            },
            Object::VisualSelection => {
                do_visual_selection(
                    &mut buffer,
                    &mut cursor,
                    &mut self.mode,
                    self.visual_range_anchor,
                    action,
                );
            },
            Object::CommandBarMode => {
                self.mode = EditorMode::CommandBar;
                self.command_bar_input.push(':');
                self.cmd_bar_cursor_x = 1;
            },
            Object::SearchMode => {
                self.mode = EditorMode::Search;
                self.command_bar_input.push('/');
                self.cmd_bar_cursor_x = 1;
            },
            Object::Up | Object::Down | Object::Left | Object::Right | Object::LineStart
                | Object::LineEnd | Object::CharUnderCursor => {
                do_simple_move(&mut buffer, &mut cursor, self.mode, obj, action, modifier);
            },
            Object::Line => {
                do_line(&mut buffer, &mut cursor, action, modifier);
            },
            Object::NextSearchResult => {
                let found = next_position(cpos, &self.search_results);
                if let Some(pos) = found {
                    let t2 = buffer.total_lines();
                    if pos.line < t2 {
                        let l2 = buffer.line_len(pos.line);
                        if pos.col <= l2 {
                            set_cursor(&mut cursor, &buffer, pos);
                        }
                    }
                }
            },
            Object::PreviousSearchResult => {
                let found = previous_position(cpos, &self.search_results);
                if let Some(pos) = found {
                    let t2 = buffer.total_lines();
                    if pos.line < t2 {
                        let l2 = buffer.line_len(pos.line);
                        if pos.col <= l2 {
                            set_cursor(&mut cursor, &buffer, pos);
                        }
                    }
                }
            },
            Object::InsertLineUp => {
                do_open_line(&mut buffer, &mut cursor, false);
                self.mode = EditorMode::Insert;
            },
            Object::InsertLineDown => {
                do_open_line(&mut buffer, &mut cursor, true);
                self.mode = EditorMode::Insert;
            },
        }
        clamp_cursor(&mut cursor, &buffer);
        let ghost mid = *self;
        self.put_back(buffer, cursor);
        proof {
            let curi = old(self).current_buffer as int;
            assert(self.buffers@ =~= old(self).buffers@.update(curi, buffer));
            assert(self.buffers[curi] == buffer);
            assert(self.cursors[curi] == cursor);
            if old(self).motion.action != Some(Action::Delete) && old(self).motion.object != Some(
                Object::InsertLineUp,
            ) && old(self).motion.object != Some(Object::InsertLineDown) {
                assert(self.buffers@ =~= old(self).buffers@);
            }
            if buffer == old(self).buffers[curi] {
                assert(self.buffers@ =~= old(self).buffers@);
            }
            if cursor == old(self).cursors[curi] {
                assert(self.cursors@ =~= old(self).cursors@);
            }
        }
        true
    }
}


/// A string of `n` spaces.
fn make_spaces(n: usize) -> (r: String)
    ensures
        r@.len() == n,
        forall|j: int| 0 <= j < n ==> #[trigger] r@[j] == ' ',
{
    let mut s = String::new();
    let mut i: usize = 0;
    while i < n
        invariant
            i <= n,
            s@.len() == i,
            forall|j: int| 0 <= j < i ==> #[trigger] s@[j] == ' ',
        decreases n - i,
    {
        push_char(&mut s, ' ');
        i = i + 1;
    }
    s
}

/// Inserts space characters before column `col` of `line`, with all the
/// separator-freedom and budget checks done here.
fn insert_spaces(buffer: &mut TextBuffer, line: usize, col: usize, n: usize)
    requires
        old(buffer).wf(),
        line < old(buffer).line_count(),
        col <= old(buffer).line_view(line as int).len(),
    ensures
        final(buffer).wf(),
        final(buffer).line_count() == old(buffer).line_count(),
        n > 0 && old(buffer).bytes().len() + n <= usize::MAX ==> final(buffer).line_view(
            line as int,
        ) == old(buffer).line_view(line as int).take(col as int) + Seq::new(
            n as nat,
            |i: int| ' ',
        ) + old(buffer).line_view(line as int).skip(col as int) && (forall|j: int|
            0 <= j < old(buffer).line_count() && j != line ==> #[trigger] final(buffer).line_view(j) == old(buffer).line_view(j)),
{
    let total_b = buffer.byte_len();
    if n == 0 || total_b > usize::MAX - n {
        return ;
    }
    let s = make_spaces(n);
    let bs = s.as_str().as_bytes();
    proof {
        vstd::utf8::is_ascii_chars_encode_utf8(s@);
        vstd::utf8::encode_utf8_valid_utf8(s@);
        assert(vstd::utf8::is_ascii_chars(s@));
        assert forall|j: int| 0 <= j < bs@.len() implies #[trigger] bs@[j] != 10 && bs@[j]
            != 13 by {
            assert(bs@[j] == s@[j] as u8);
            assert(s@[j] == ' ');
            assert((' ' as u32) == 32);
            vstd::utf8::char_is_scalar(' ');
        }
        assert(bs@.len() == n);
    }
    buffer.insert_into_line(line, col, bs);
    proof {
        vstd::utf8::encode_utf8_decode_utf8(s@);
        assert(s@ =~= Seq::new(n as nat, |i: int| ' '));
    }
}

/// Inserts one typed character at the cursor in insert mode.
fn insert_typed(buffer: &mut TextBuffer, cursor: &mut CursorPos, c: char)
    requires
        old(buffer).wf(),
        cursor_ok(*old(buffer), *old(cursor)),
        c != '\n',
        c != '\r',
    ensures
        final(buffer).wf(),
        cursor_ok(*final(buffer), *final(cursor)),
        old(buffer).bytes().len() + 4 <= usize::MAX ==> ({
            &&& final(buffer).line_count() == old(buffer).line_count()
            &&& final(buffer).line_view(old(cursor).y - 1) == old(buffer).line_view(
                old(cursor).y - 1,
            ).take(old(cursor).x - 1) + seq![c] + old(buffer).line_view(old(cursor).y - 1).skip(
                old(cursor).x - 1,
            )
            &&& (forall|j: int|
                0 <= j < old(buffer).line_count() && j != old(cursor).y - 1 ==> #[trigger] final(buffer).line_view(j) == old(buffer).line_view(j))
            &&& final(cursor).y == old(cursor).y
            &&& final(cursor).x as int == (if old(cursor).x < usize::MAX {
                old(cursor).x + 1
            } else {
                old(cursor).x as int
            })
            &&& final(cursor).wanted_x == final(cursor).x
        }),
{
    let total_b = buffer.byte_len();
    if total_b > usize::MAX - 4 {
        return ;
    }
    let mut s = String::new();
    push_char(&mut s, c);
    proof {
        assert(s@ =~= seq![c]);
        lemma_encode_no_sep(c);
        vstd::utf8::encode_utf8_decode_utf8(seq![c]);
        assert(vstd::utf8::encode_utf8(seq![c]).len() <= 4) by {
            vstd::utf8::char_is_scalar(c);
            assert(seq![c].drop_first() =~= Seq::<char>::empty());
            assert(vstd::utf8::encode_utf8(Seq::<char>::empty()) =~= Seq::<u8>::empty());
        }
    }
    let bs = s.as_str().as_bytes();
    buffer.insert_into_line(cursor.y - 1, cursor.x - 1, bs);
    if cursor.x < usize::MAX {
        cursor.x = cursor.x + 1;
    }
    cursor.wanted_x = cursor.x;
    clamp_cursor(cursor, buffer);
}

/// Enter in insert mode: split the line at the cursor (or open a fresh line
/// below the last), then copy the reference line's indentation.
fn do_enter(buffer: &mut TextBuffer, cursor: &mut CursorPos)
    requires
        old(buffer).wf(),
        cursor_ok(*old(buffer), *old(cursor)),
    ensures
        final(buffer).wf(),
        cursor_ok(*final(buffer), *final(cursor)),
{
    let ll = buffer.line_len(cursor.y - 1);
    let total_b = buffer.byte_len();
    if total_b > usize::MAX - 8 {
        clamp_cursor(cursor, buffer);
        return ;
    }
    if cursor.x - 1 < ll {
        buffer.split_line_at_index(cursor.y - 1, cursor.x - 1);
    } else {
        buffer.insert_empty_line(cursor.y);
    }
    if cursor.y < usize::MAX {
        cursor.y = cursor.y + 1;
    }
    cursor.x = 1;
    cursor.wanted_x = 1;
    let t2 = buffer.total_lines();
    if cursor.y >= 1 && cursor.y - 1 < t2 {
        let ind_opt = indent_wanted(cursor.y - 1, buffer);
        if let Some(ind) = ind_opt {
            if ind > 0 {
                insert_spaces(buffer, cursor.y - 1, 0, ind);
                if ind < usize::MAX {
                    cursor.x = ind + 1;
                }
                cursor.wanted_x = cursor.x;
            }
        }
    }
    clamp_cursor(cursor, buffer);
}

/// Tab in insert mode inserts four spaces.
fn do_tab(buffer: &mut TextBuffer, cursor: &mut CursorPos)
    requires
        old(buffer).wf(),
        cursor_ok(*old(buffer), *old(cursor)),
    ensures
        final(buffer).wf(),
        cursor_ok(*final(buffer), *final(cursor)),
        old(buffer).bytes().len() + 4 <= usize::MAX ==> final(buffer).line_view(
            old(cursor).y - 1,
        ) == old(buffer).line_view(old(cursor).y - 1).take(old(cursor).x - 1) + Seq::new(
            4,
            |i: int| ' ',
        ) + old(buffer).line_view(old(cursor).y - 1).skip(old(cursor).x - 1) && final(buffer).line_count() == old(buffer).line_count() && (forall|j: int|
            0 <= j < old(buffer).line_count() && j != old(cursor).y - 1 ==> #[trigger] final(buffer).line_view(j) == old(buffer).line_view(j)),
        old(buffer).bytes().len() + 4 <= usize::MAX && old(cursor).x <= usize::MAX - 4 ==> final(cursor).y == old(cursor).y && final(cursor).x == old(cursor).x + 4 && final(cursor).wanted_x == final(cursor).x,
{
    insert_spaces(buffer, cursor.y - 1, cursor.x - 1, 4);
    if cursor.x <= usize::MAX - 4 {
        cursor.x = cursor.x + 4;
    }
    cursor.wanted_x = cursor.x;
    clamp_cursor(cursor, buffer);
}

/// Backspace in insert mode: delete the character left of the cursor, or
/// join with the previous line at column one.
fn do_backspace(buffer: &mut TextBuffer, cursor: &mut CursorPos)
    requires
        old(buffer).wf(),
        cursor_ok(*old(buffer), *old(cursor)),
    ensures
        final(buffer).wf(),
        cursor_ok(*final(buffer), *final(cursor)),
{
    let ll = buffer.line_len(cursor.y - 1);
    if ll > 0 && cursor.x > 1 {
        buffer.remove_from_line(cursor.y - 1, cursor.x - 2, 1);
        cursor.x = cursor.x - 1;
        cursor.wanted_x = cursor.x;
    } else if cursor.x == 1 && cursor.y > 1 {
        let nx = buffer.line_len(cursor.y - 2);
        buffer.remove_line_sep(cursor.y - 2);
        cursor.x = if nx < usize::MAX {
            nx + 1
        } else {
            nx
        };
        cursor.wanted_x = cursor.x;
        cursor.y = cursor.y - 1;
    }
    clamp_cursor(cursor, buffer);
}

/// Compares two strings by their characters.
fn strings_equal(a: &String, b: &String) -> (r: bool)
    ensures
        r == (a@ == b@),
{
    a.eq(b)
}

/// The index of the first space at or after `i`, or the length when none.
pub open spec fn first_space_from(s: Seq<char>, i: int) -> int
    decreases s.len() - i when 0 <= i <= s.len()
{
    if i >= s.len() {
        s.len() as int
    } else if s[i] == ' ' {
        i
    } else {
        first_space_from(s, i + 1)
    }
}

proof fn lemma_first_space(s: Seq<char>, i: int, k: int)
    requires
        0 <= i <= k <= s.len(),
        forall|j: int| i <= j < k ==> s[j] != ' ',
        k == s.len() || s[k] == ' ',
    ensures
        first_space_from(s, i) == k,
    decreases k - i,
{
    if i < k {
        lemma_first_space(s, i + 1, k);
    }
}

impl Editor {
    /// Interprets a finished command-bar line: `:e <path>` switches to or
    /// asks for a buffer at the path, `:w` asks for a write, `:q` asks to
    /// quit; anything else does nothing.  The returned action is exactly
    /// what the command table selects for the name between the colon and
    /// the first space.
    #[verifier::rlimit(100)]
    #[verifier::spinoff_prover]
    fn dispatch_command(&mut self) -> (r: CommandBarAction)
        requires
            old(self).wf(),
        ensures
            final(self).wf(),
            final(self).buffers == old(self).buffers,
            final(self).cursors == old(self).cursors,
            final(self).mode == old(self).mode,
            final(self).command_bar_input == old(self).command_bar_input,
            old(self).command_bar_input@.len() == 0 ==> r is NoOp,
            old(self).command_bar_input@.len() > 0 ==> ({
                let inp = old(self).command_bar_input@;
                let sp = first_space_from(inp, 1);
                let name = inp.subrange(1, sp);
                match crate::command_bar::cmd_of(name) {
                    Some(BarCommand::Write) => r is Write,
                    Some(BarCommand::Quit) => r is Quit,
                    Some(BarCommand::Edit) => ({
                        &&& (!(sp + 1 < inp.len()) ==> r is NoOp)
                        &&& (sp + 1 < inp.len() ==> ({
                            let arg = inp.subrange(sp + 1, inp.len() as int);
                            ||| (r matches CommandBarAction::NewBuffer(p) && p@ == arg)
                            ||| (r matches CommandBarAction::SwitchToBuffer(t) && ({
                                &&& t < old(self).paths.len()
                                &&& (old(self).paths[t as int] matches Some(q) && q@ == arg)
                                &&& final(self).current_buffer == t
                            }))
                        }))
                    }),
                    None => r is NoOp,
                }
            }),
    {
        let n = self.command_bar_input.len();
        if n == 0 {
            return CommandBarAction::NoOp;
        }
        let ghost inp = self.command_bar_input@;
        let mut sp: usize = n;
        let mut i: usize = 1;
        while i < n
            invariant
                *self == *old(self),
                inp == self.command_bar_input@,
                n == inp.len(),
                1 <= i <= n,
                sp == n || (1 <= sp < i && inp[sp as int] == ' '),
                sp == n ==> forall|j: int| 1 <= j < i ==> inp[j] != ' ',
                sp < n ==> forall|j: int| 1 <= j < sp ==> inp[j] != ' ',
            decreases n - i,
        {
            if self.command_bar_input[i] == ' ' && sp == n {
                sp = i;
            }
            i = i + 1;
        }
        proof {
            lemma_first_space(inp, 1, sp as int);
            assert(first_space_from(inp, 1) == sp);
        }
        let mut name = String::new();
        let mut j: usize = 1;
        while j < sp && j < n
            invariant
                *self == *old(self),
                inp == self.command_bar_input@,
                n == inp.len(),
                sp <= n,
                sp as int == first_space_from(inp, 1),
                1 <= j <= sp,
                name@ == inp.subrange(1, j as int),
            decreases n - j,
        {
            push_char(&mut name, self.command_bar_input[j]);
            j = j + 1;
            proof {
                assert(name@ =~= inp.subrange(1, j as int));
            }
        }
        proof {
            assert(name@ =~= inp.subrange(1, sp as int));
        }
        let cmd = match_cmd(name.as_str());
        match cmd {
            Some(BarCommand::Write) => CommandBarAction::Write,
            Some(BarCommand::Quit) => CommandBarAction::Quit,
            Some(BarCommand::Edit) => {
                if sp + 1 < n {
                    let mut arg = String::new();
                    let mut k: usize = sp + 1;
                    while k < n
                        invariant
                            *self == *old(self),
                            inp == self.command_bar_input@,
                            n == inp.len(),
                            sp + 1 <= k <= n,
                            arg@ == inp.subrange(sp + 1, k as int),
                        decreases n - k,
                    {
                        push_char(&mut arg, self.command_bar_input[k]);
                        k = k + 1;
                        proof {
                            assert(arg@ =~= inp.subrange(sp + 1, k as int));
                        }
                    }
                    let m = self.paths.len();
                    let mut t: usize = 0;
                    while t < m
                        invariant
                            *self == *old(self),
                            self.wf(),
                            m == self.paths.len(),
                            inp == self.command_bar_input@,
                            n == inp.len(),
                            1 <= sp && sp + 1 < n,
                            sp as int == first_space_from(inp, 1),
                            crate::command_bar::cmd_of(inp.subrange(1, sp as int)) == Some(
                                BarCommand::Edit,
                            ),
                            arg@ == inp.subrange(sp + 1, inp.len() as int),
                        decreases m - t,
                    {
                        let hit = match &self.paths[t] {
                            Some(p) => strings_equal(p, &arg),
                            None => false,
                        };
                        if hit {
                            self.current_buffer = t;
                            return CommandBarAction::SwitchToBuffer(t);
                        }
                        t = t + 1;
                    }
                    CommandBarAction::NewBuffer(arg)
                } else {
                    CommandBarAction::NoOp
                }
            },
            None => CommandBarAction::NoOp,
        }
    }

    /// One insert-mode tick: typed characters are spliced in at the cursor,
    /// Enter breaks the line, Tab indents, Backspace deletes or joins, and
    /// Escape returns to normal mode.
    #[verifier::rlimit(100)]
    #[verifier::spinoff_prover]
    fn insert_tick(&mut self, chars: &Vec<char>, specials: &Vec<SpecialKey>) -> (r:
        CommandBarAction)
        requires
            old(self).wf(),
            old(self).mode == EditorMode::Insert,
        ensures
            final(self).wf(),
            specials@.contains(SpecialKey::Escape) ==> final(self).mode == EditorMode::Normal,
            !specials@.contains(SpecialKey::Escape) ==> final(self).mode == EditorMode::Insert,
            ({
                let cur = old(self).current_buffer as int;
                let c = old(self).cursors[cur];
                let b = old(self).buffers[cur];
                (chars@.len() == 0 && specials@.contains(SpecialKey::Tab) && !specials@.contains(
                    SpecialKey::Enter,
                ) && !specials@.contains(SpecialKey::Backspace) && !specials@.contains(
                    SpecialKey::Escape,
                ) && b.bytes().len() + 4 <= usize::MAX) ==> final(self).buffers[cur].line_view(c.y - 1) == b.line_view(
                    c.y - 1,
                ).take(c.x - 1) + Seq::new(4, |i: int| ' ') + b.line_view(c.y - 1).skip(c.x - 1)
                    && (forall|j: int|
                    0 <= j < b.line_count() && j != c.y - 1 ==> #[trigger] final(self).buffers[cur].line_view(j) == b.line_view(j)) && (c.x <= usize::MAX - 4
                    ==> final(self).cursors[cur].x == c.x + 4 && final(self).cursors[cur].wanted_x
                    == c.x + 4)
            }),
            ({
                let cur = old(self).current_buffer as int;
                let c = old(self).cursors[cur];
                let b = old(self).buffers[cur];
                (chars@.len() == 1 && chars@[0] != '\n' && chars@[0] != '\r'
                    && !specials@.contains(SpecialKey::Enter) && !specials@.contains(
                    SpecialKey::Tab,
                ) && !specials@.contains(SpecialKey::Escape) && !specials@.contains(
                    SpecialKey::Backspace,
                ) && b.bytes().len() + 4 <= usize::MAX && c.x < usize::MAX) ==> final(self).buffers[cur].line_view(c.y - 1) == b.line_view(c.y - 1).take(c.x - 1) + seq![
                    chars@[0],
                ] + b.line_view(c.y - 1).skip(c.x - 1) && final(self).cursors[cur].x == c.x + 1
                    && final(self).cursors[cur].y == c.y
            }),
    {
        let cur = self.current_buffer;
        let mut buffer = self.buffers.remove(cur);
        let mut cursor = self.cursors[cur];
        let ghost b0 = buffer;
        let ghost cc0 = cursor;
        let nc = chars.len();
        let mut i: usize = 0;
        while i < nc
            invariant
                buffer.wf(),
                cursor_ok(buffer, cursor),
                nc == chars@.len(),
                i <= nc,
                b0.wf(),
                cursor_ok(b0, cc0),
                nc == 0 ==> buffer == b0 && cursor == cc0,
                i == 0 ==> buffer == b0 && cursor == cc0,
                (nc == 1 && i == 1 && chars@[0] != '\n' && chars@[0] != '\r'
                    && b0.bytes().len() + 4 <= usize::MAX && cc0.x < usize::MAX) ==> ({
                    &&& buffer.line_view(cc0.y - 1) == b0.line_view(cc0.y - 1).take(cc0.x - 1)
                        + seq![chars@[0]] + b0.line_view(cc0.y - 1).skip(cc0.x - 1)
                    &&& cursor.x == cc0.x + 1
                    &&& cursor.y == cc0.y
                }),
            decreases nc - i,
        {
            let c = chars[i];
            if c != '\n' && c != '\r' {
                insert_typed(&mut buffer, &mut cursor, c);
            }
            i = i + 1;
        }
        if pressed(specials, SpecialKey::Enter) {
            do_enter(&mut buffer, &mut cursor);
        }
        if pressed(specials, SpecialKey::Tab) {
            do_tab(&mut buffer, &mut cursor);
        }
        if pressed(specials, SpecialKey::Escape) {
            self.mode = EditorMode::Normal;
            if cursor.x > 1 {
                cursor.x = cursor.x - 1;
            }
            cursor.wanted_x = cursor.x;
        }
        if pressed(specials, SpecialKey::Backspace) {
            do_backspace(&mut buffer, &mut cursor);
        }
        self.put_back(buffer, cursor);
        proof {
            let curi = old(self).current_buffer as int;
            assert(self.buffers[curi] == buffer);
            assert(self.cursors[curi] == cursor);
            let c = old(self).cursors[curi];
            let b = old(self).buffers[curi];
            assert(b0 == b);
            assert(cc0 == c);
        }
        CommandBarAction::NoOp
    }

    /// One command-bar tick: characters accumulate, Enter dispatches the
    /// line, Backspace trims it, Escape (or an emptied line) returns to
    /// normal mode.
    #[verifier::rlimit(100)]
    #[verifier::spinoff_prover]
    fn bar_tick(&mut self, chars: &Vec<char>, specials: &Vec<SpecialKey>) -> (r: CommandBarAction)
        requires
            old(self).wf(),
            old(self).mode == EditorMode::CommandBar,
        ensures
            final(self).wf(),
            specials@.contains(SpecialKey::Escape) ==> final(self).mode == EditorMode::Normal,
            specials@.contains(SpecialKey::Enter) ==> final(self).mode == EditorMode::Normal,
            // enter dispatches the accumulated line through the command
            // table and returns its action
            (specials@.contains(SpecialKey::Enter) && chars@.len() == 0) ==> ({
                let inp = old(self).command_bar_input@;
                &&& (inp.len() == 0 ==> r is NoOp)
                &&& (inp.len() > 0 ==> ({
                    let sp = first_space_from(inp, 1);
                    let name = inp.subrange(1, sp);
                    match crate::command_bar::cmd_of(name) {
                        Some(BarCommand::Write) => r is Write,
                        Some(BarCommand::Quit) => r is Quit,
                        Some(BarCommand::Edit) => ({
                            &&& (!(sp + 1 < inp.len()) ==> r is NoOp)
                            &&& (sp + 1 < inp.len() ==> ({
                                let arg = inp.subrange(sp + 1, inp.len() as int);
                                ||| (r matches CommandBarAction::NewBuffer(p) && p@ == arg)
                                ||| (r matches CommandBarAction::SwitchToBuffer(t) && ({
                                    &&& t < old(self).paths.len()
                                    &&& (old(self).paths[t as int] matches Some(q) && q@ == arg)
                                }))
                            }))
                        }),
                        None => r is NoOp,
                    }
                }))
            }),
    {
        let nc = chars.len();
        let mut i: usize = 0;
        while i < nc
            invariant
                self.wf(),
                nc == chars@.len(),
                self.mode == old(self).mode,
                nc == 0 ==> *self == *old(self),
            decreases nc - i,
        {
            self.command_bar_input.push(chars[i]);
            if self.cmd_bar_cursor_x < usize::MAX {
                self.cmd_bar_cursor_x = self.cmd_bar_cursor_x + 1;
            }
            i = i + 1;
        }
        let mut out = CommandBarAction::NoOp;
        if pressed(specials, SpecialKey::Enter) {
            out = self.dispatch_command();
            self.command_bar_input = Vec::new();
            self.cmd_bar_cursor_x = 1;
            self.mode = EditorMode::Normal;
        }
        if pressed(specials, SpecialKey::Backspace) {
            let _popped = self.command_bar_input.pop();
            if self.cmd_bar_cursor_x > 0 {
                self.cmd_bar_cursor_x = self.cmd_bar_cursor_x - 1;
            }
        }
        if pressed(specials, SpecialKey::Escape) {
            self.command_bar_input = Vec::new();
            self.mode = EditorMode::Normal;
        }
        if self.command_bar_input.len() == 0 {
            self.mode = EditorMode::Normal;
        }
        out
    }

    /// One search tick: characters extend the pattern and re-run the scan,
    /// Enter jumps to the closest hit at or after the cursor, Escape (or an
    /// emptied line) returns to normal mode.
    #[verifier::rlimit(100)]
    #[verifier::spinoff_prover]
    fn search_tick(&mut self, chars: &Vec<char>, specials: &Vec<SpecialKey>) -> (r:
        CommandBarAction)
        requires
            old(self).wf(),
            old(self).mode == EditorMode::Search,
        ensures
            final(self).wf(),
            specials@.contains(SpecialKey::Escape) ==> final(self).mode == EditorMode::Normal,
            specials@.contains(SpecialKey::Enter) ==> final(self).mode == EditorMode::Normal,
            // enter jumps to the closest hit at or after the cursor
            (specials@.contains(SpecialKey::Enter) && chars@.len() == 0) ==> ({
                let cur = old(self).current_buffer as int;
                let c0 = old(self).cursors[cur];
                let b = old(self).buffers[cur];
                let cpos = LinePos { line: (c0.y - 1) as usize, col: (c0.x - 1) as usize };
                match closest_of(cpos, old(self).search_results@) {
                    None => final(self).cursors@ == old(self).cursors@,
                    Some(q) => ({
                        &&& (pos_in(b, q) && q.line < usize::MAX && q.col < usize::MAX ==> final(self).cursors[cur].y == q.line + 1 && final(self).cursors[cur].x == q.col + 1)
                        &&& (!pos_in(b, q) ==> final(self).cursors@ == old(self).cursors@)
                    }),
                }
            }),
    {
        let nc = chars.len();
        if nc > 0 {
            let mut i: usize = 0;
            while i < nc
                invariant
                    self.wf(),
                    nc == chars@.len(),
                    self.mode == old(self).mode,
                decreases nc - i,
            {
                self.command_bar_input.push(chars[i]);
                if self.cmd_bar_cursor_x < usize::MAX {
                    self.cmd_bar_cursor_x = self.cmd_bar_cursor_x + 1;
                }
                i = i + 1;
            }
            let ni = self.command_bar_input.len();
            let mut needle = String::new();
            let mut j: usize = 1;
            while j < ni
                invariant
                    self.wf(),
                    ni == self.command_bar_input@.len(),
                    self.mode == old(self).mode,
                    1 <= j,
                decreases ni - j,
            {
                push_char(&mut needle, self.command_bar_input[j]);
                j = j + 1;
            }
            let results = search(needle.as_str().as_bytes(), &self.buffers[self.current_buffer]);
            self.search_results = results;
        }
        if pressed(specials, SpecialKey::Backspace) {
            let _popped = self.command_bar_input.pop();
            if self.cmd_bar_cursor_x > 0 {
                self.cmd_bar_cursor_x = self.cmd_bar_cursor_x - 1;
            }
        }
        if pressed(specials, SpecialKey::Enter) {
            let cur = self.current_buffer;
            let cursor0 = self.cursors[cur];
            let found = closest_position(cursor0.to_linepos(), &self.search_results);
            if let Some(pos) = found {
                let t2 = self.buffers[cur].total_lines();
                if pos.line < t2 {
                    let l2 = self.buffers[cur].line_len(pos.line);
                    if pos.col <= l2 {
                        let mut cursor = cursor0;
                        set_cursor(&mut cursor, &self.buffers[cur], pos);
                        let ghost pre = *self;
                        self.cursors.set(cur, cursor);
                        proof {
                            assert forall|i2: int| 0 <= i2 < self.buffers.len()
                                implies cursor_ok(
                                self.buffers[i2],
                                #[trigger] self.cursors[i2],
                            ) by {
                                if i2 != cur {
                                    assert(self.cursors[i2] == pre.cursors[i2]);
                                    assert(cursor_ok(pre.buffers[i2], pre.cursors[i2]));
                                }
                            }
                        }
                    }
                }
            }
            self.command_bar_input = Vec::new();
            self.mode = EditorMode::Normal;
        }
        if pressed(specials, SpecialKey::Escape) {
            self.command_bar_input = Vec::new();
            self.mode = EditorMode::Normal;
        }
        if self.command_bar_input.len() == 0 {
            self.mode = EditorMode::Normal;
        }
        CommandBarAction::NoOp
    }

    /// One normal/visual tick: each typed character feeds the keystroke
    /// table, a dispatchable motion is dispatched and cleared, and Escape
    /// cancels the pending motion.
    #[verifier::rlimit(100)]
    #[verifier::spinoff_prover]
    fn motion_tick(&mut self, chars: &Vec<char>, specials: &Vec<SpecialKey>) -> (r:
        CommandBarAction)
        requires
            old(self).wf(),
            old(self).mode == EditorMode::Normal || old(self).mode == EditorMode::Visual || old(self).mode == EditorMode::VisualLine,
        ensures
            final(self).wf(),
            specials@.contains(SpecialKey::Escape) ==> final(self).mode == EditorMode::Normal
                && final(self).motion.is_empty(),
            ({
                let m2 = crate::vim_commands::parse_step(
                    old(self).motion,
                    chars@[0],
                    old(self).mode,
                );
                chars@.len() == 1 && !specials@.contains(SpecialKey::Escape) ==> ({
                    &&& (m2.object is Some ==> final(self).motion.is_empty())
                    &&& (m2.object is None ==> final(self).motion == m2)
                })
            }),
    {
        let ghost m2 = crate::vim_commands::parse_step(old(self).motion, chars@[0], old(self).mode);
        let nc = chars.len();
        let mut i: usize = 0;
        while i < nc
            invariant
                self.wf(),
                nc == chars@.len(),
                i <= nc,
                nc == 1 ==> m2 == crate::vim_commands::parse_step(
                    old(self).motion,
                    chars@[0],
                    old(self).mode,
                ),
                nc == 1 && i == 0 ==> self.motion == old(self).motion && self.mode == old(self).mode,
                (nc == 1 && i == 1) ==> ((m2.object is Some ==> self.motion.is_empty()) && (
                m2.object is None ==> self.motion == m2)),
            decreases nc - i,
        {
            let c = chars[i];
            let mode_now = self.mode;
            self.motion.parse(c, mode_now);
            if self.execute_cmd() {
                self.motion.clear();
            }
            i = i + 1;
        }
        if pressed(specials, SpecialKey::Escape) {
            self.motion.clear();
            self.mode = EditorMode::Normal;
        }
        CommandBarAction::NoOp
    }

    /// One tick of input: typed characters and named keys, routed by mode.
    /// Insert mode edits directly; the command bar and search accumulate a
    /// line of input; every other mode feeds the motion parser and
    /// dispatches.  Returns what the session around the core must do.
    pub fn handle_input(&mut self, chars: &Vec<char>, specials: &Vec<SpecialKey>) -> (r:
        CommandBarAction)
        requires
            old(self).wf(),
        ensures
            final(self).wf(),
            specials@.contains(SpecialKey::Escape) ==> final(self).mode == EditorMode::Normal,
            old(self).mode == EditorMode::CommandBar && specials@.contains(SpecialKey::Enter)
                ==> final(self).mode == EditorMode::Normal,
            old(self).mode == EditorMode::Search && specials@.contains(SpecialKey::Enter)
                ==> final(self).mode == EditorMode::Normal,
            // enter in search mode jumps to the closest hit at or after
            // the cursor
            (old(self).mode == EditorMode::Search && specials@.contains(SpecialKey::Enter)
                && chars@.len() == 0) ==> ({
                let cur = old(self).current_buffer as int;
                let c0 = old(self).cursors[cur];
                let b = old(self).buffers[cur];
                let cpos = LinePos { line: (c0.y - 1) as usize, col: (c0.x - 1) as usize };
                match closest_of(cpos, old(self).search_results@) {
                    None => final(self).cursors@ == old(self).cursors@,
                    Some(q) => ({
                        &&& (pos_in(b, q) && q.line < usize::MAX && q.col < usize::MAX ==> final(self).cursors[cur].y == q.line + 1 && final(self).cursors[cur].x == q.col + 1)
                        &&& (!pos_in(b, q) ==> final(self).cursors@ == old(self).cursors@)
                    }),
                }
            }),
            // a finished command-bar line yields the table's action
            (old(self).mode == EditorMode::CommandBar && specials@.contains(SpecialKey::Enter)
                && chars@.len() == 0) ==> ({
                let inp = old(self).command_bar_input@;
                &&& (inp.len() == 0 ==> r is NoOp)
                &&& (inp.len() > 0 ==> ({
                    let sp = first_space_from(inp, 1);
                    let name = inp.subrange(1, sp);
                    match crate::command_bar::cmd_of(name) {
                        Some(BarCommand::Write) => r is Write,
                        Some(BarCommand::Quit) => r is Quit,
                        Some(BarCommand::Edit) => ({
                            &&& (!(sp + 1 < inp.len()) ==> r is NoOp)
                            &&& (sp + 1 < inp.len() ==> ({
                                let arg = inp.subrange(sp + 1, inp.len() as int);
                                ||| (r matches CommandBarAction::NewBuffer(p) && p@ == arg)
                                ||| (r matches CommandBarAction::SwitchToBuffer(t) && ({
                                    &&& t < old(self).paths.len()
                                    &&& (old(self).paths[t as int] matches Some(q) && q@ == arg)
                                }))
                            }))
                        }),
                        None => r is NoOp,
                    }
                }))
            }),
            (old(self).mode == EditorMode::Normal || old(self).mode == EditorMode::Visual || old(self).mode == EditorMode::VisualLine) && specials@.contains(SpecialKey::Escape) ==> final(self).motion.is_empty(),
            old(self).mode == EditorMode::Insert && !specials@.contains(SpecialKey::Escape)
                ==> final(self).mode == EditorMode::Insert,
            // tab in insert mode, by itself, indents by four spaces and
            // advances the cursor
            ({
                let cur = old(self).current_buffer as int;
                let c = old(self).cursors[cur];
                let b = old(self).buffers[cur];
                (old(self).mode == EditorMode::Insert && chars@.len() == 0 && specials@.contains(
                    SpecialKey::Tab,
                ) && !specials@.contains(SpecialKey::Enter) && !specials@.contains(
                    SpecialKey::Backspace,
                ) && !specials@.contains(SpecialKey::Escape) && b.bytes().len() + 4
                    <= usize::MAX) ==> final(self).buffers[cur].line_view(
                    c.y - 1,
                ) == b.line_view(c.y - 1).take(c.x - 1) + Seq::new(4, |i: int| ' ')
                    + b.line_view(c.y - 1).skip(c.x - 1) && (forall|j: int|
                    0 <= j < b.line_count() && j != c.y - 1 ==> #[trigger] final(self).buffers[cur].line_view(j) == b.line_view(j)) && (c.x <= usize::MAX - 4
                    ==> final(self).cursors[cur].x == c.x + 4 && final(self).cursors[cur].wanted_x
                    == c.x + 4)
            }),
            // one typed character in insert mode is spliced in at the cursor
            // column and the cursor advances
            ({
                let cur = old(self).current_buffer as int;
                let c = old(self).cursors[cur];
                let b = old(self).buffers[cur];
                (old(self).mode == EditorMode::Insert && chars@.len() == 1 && chars@[0] != '\n'
                    && chars@[0] != '\r' && !specials@.contains(SpecialKey::Enter)
                    && !specials@.contains(SpecialKey::Tab) && !specials@.contains(
                    SpecialKey::Escape,
                ) && !specials@.contains(SpecialKey::Backspace) && b.bytes().len() + 4
                    <= usize::MAX && c.x < usize::MAX) ==> final(self).buffers[cur].line_view(
                    c.y - 1,
                ) == b.line_view(c.y - 1).take(c.x - 1) + seq![chars@[0]] + b.line_view(
                    c.y - 1,
                ).skip(c.x - 1) && final(self).cursors[cur].x == c.x + 1 && final(self).cursors[cur].y == c.y
            }),
            // one typed character in the motion modes feeds the keystroke
            // table; a dispatchable motion is consumed and cleared
            ({
                let m2 = crate::vim_commands::parse_step(
                    old(self).motion,
                    chars@[0],
                    old(self).mode,
                );
                ((old(self).mode == EditorMode::Normal || old(self).mode == EditorMode::Visual
                    || old(self).mode == EditorMode::VisualLine) && chars@.len() == 1
                    && !specials@.contains(SpecialKey::Escape)) ==> ({
                    &&& (m2.object is Some ==> final(self).motion.is_empty())
                    &&& (m2.object is None ==> final(self).motion == m2)
                })
            }),
    {
        if self.mode == EditorMode::Insert {
            self.insert_tick(chars, specials)
        } else if self.mode == EditorMode::CommandBar {
            self.bar_tick(chars, specials)
        } else if self.mode == EditorMode::Search {
            self.search_tick(chars, specials)
        } else {
            self.motion_tick(chars, specials)
        }
    }
}

/// Moves to (or deletes back to) the previous word start.
fn do_back_word(buffer: &mut TextBuffer, cursor: &mut CursorPos, action: Option<Action>)
    requires
        old(buffer).wf(),
        cursor_ok(*old(buffer), *old(cursor)),
    ensures
        final(buffer).wf(),
        cursor_ok(*final(buffer), *final(cursor)),
        action != Some(Action::Delete) ==> *final(buffer) == *old(buffer),
{
    if buffer.byte_len() >= usize::MAX / 2 {
        clamp_cursor(cursor, buffer);
        return ;
    }
    let cpos = cursor.to_linepos();
    let total = buffer.total_lines();
    let ll = buffer.line_len(cursor.y - 1);
    if cursor.x - 1 <= ll {
        let found = find_previous_word_start(cpos, buffer);
        if let Some(pos) = found {
            if action == Some(Action::Delete) {
                if (pos.line < cpos.line || (pos.line == cpos.line && pos.col <= cpos.col))
                    && cpos.line < total {
                    buffer.remove_by_range(pos, cpos);
                }
            }
            let t2 = buffer.total_lines();
            if pos.line < t2 {
                let l2 = buffer.line_len(pos.line);
                if pos.col <= l2 {
                    set_cursor(cursor, buffer, pos);
                }
            }
        }
    }
    clamp_cursor(cursor, buffer);
}

/// Moves to (or deletes up to) the next word or WORD start, or selects or
/// deletes the token under the cursor with the inside modifier.
#[verifier::rlimit(100)]
#[verifier::spinoff_prover]
fn do_word(
    buffer: &mut TextBuffer,
    cursor: &mut CursorPos,
    mode: &mut EditorMode,
    anchor: &mut LinePos,
    obj: Object,
    action: Option<Action>,
    modifier: Option<Modifier>,
)
    requires
        old(buffer).wf(),
        cursor_ok(*old(buffer), *old(cursor)),
        obj == Object::Word || obj == Object::WORD,
    ensures
        final(buffer).wf(),
        cursor_ok(*final(buffer), *final(cursor)),
        action != Some(Action::Delete) ==> *final(buffer) == *old(buffer),
        *final(mode) == *old(mode),
        *old(mode) != EditorMode::Visual ==> *final(anchor) == *old(anchor),
        // deleting up to the next word start on the same line removes the
        // characters from the cursor up to (exclusive of) that word
        (obj == Object::Word && action == Some(Action::Delete) && modifier is None && old(buffer).bytes().len() < usize::MAX / 2) ==> ({
            let cpos = LinePos { line: (old(cursor).y - 1) as usize, col: (old(cursor).x - 1) as usize };
            let lv = old(buffer).line_view(cpos.line as int);
            let res = crate::vim_commands::next_word_result(
                crate::vim_commands::stream_from(*old(buffer), cpos),
                cpos.col as int,
            );
            &&& (res is None ==> *final(buffer) == *old(buffer) && *final(cursor) == *old(cursor))
            &&& (res matches Some(rc) ==> (rc.0 == 0 && cpos.col < rc.1 <= lv.len() ==> ({
                &&& final(buffer).line_count() == old(buffer).line_count()
                &&& final(buffer).line_view(cpos.line as int) == lv.take(cpos.col as int)
                    + lv.skip(rc.1)
                &&& (forall|j: int|
                    0 <= j < old(buffer).line_count() && j != cpos.line ==> #[trigger] final(buffer).line_view(j) == old(buffer).line_view(j))
                &&& *final(cursor) == *old(cursor)
            })))
        }),
{
    if buffer.byte_len() >= usize::MAX / 2 {
        clamp_cursor(cursor, buffer);
        return ;
    }
    let cpos = cursor.to_linepos();
    let total = buffer.total_lines();
    let ll = buffer.line_len(cursor.y - 1);
    let inside = modifier == Some(Modifier::Inside) || modifier == Some(
        Modifier::Around,
    );
    if inside {
        if cursor.x - 1 < ll {
            proof {
                buffer.lemma_raw_view(cpos.line as int);
            }
            let sopt = if obj == Object::Word {
                find_current_word_start(cpos, buffer)
            } else {
                find_current_WORD_start(cpos, buffer)
            };
            let eopt = if obj == Object::Word {
                find_current_word_end(cpos, buffer)
            } else {
                find_current_WORD_end(cpos, buffer)
            };
            if let (Some(s), Some(e)) = (sopt, eopt) {
                if action == Some(Action::Delete) {
                    if s.col <= e.col && e.col < ll {
                        buffer.remove_from_line(cpos.line, s.col, e.col - s.col + 1);
                        let l2 = buffer.line_len(cpos.line);
                        let nx = if s.col + 1 <= l2 {
                            s.col + 1
                        } else {
                            l2
                        };
                        cursor.x = if nx >= 1 {
                            nx
                        } else {
                            1
                        };
                        cursor.wanted_x = cursor.x;
                    }
                } else if *mode == EditorMode::Visual {
                    *anchor = s;
                    let t2 = buffer.total_lines();
                    if e.line < t2 {
                        let l2 = buffer.line_len(e.line);
                        if e.col <= l2 {
                            set_cursor(cursor, buffer, e);
                        }
                    }
                }
            }
        }
    } else {
        let times = match modifier {
            Some(Modifier::Count(n)) => n,
            _ => 1,
        };
        let found = if obj == Object::Word {
            count(cpos, buffer, times, find_next_word_start)
        } else {
            count(cpos, buffer, times, find_next_WORD_start)
        };
        proof {
            // with no count modifier the single chained step is exactly one
            // finder call, whose contract pins the landing position
            if obj == Object::Word && modifier is None {
                match found {
                    Some(q) => {
                        let ps = choose|ps: Seq<LinePos>|
                            {
                                &&& #[trigger] crate::vim_commands::step_chain(
                                    find_next_word_start,
                                    cpos,
                                    &*buffer,
                                    ps,
                                )
                                &&& 1 <= ps.len() <= times
                                &&& q == ps.last()
                                &&& ps.len() < times ==> call_ensures(
                                    find_next_word_start,
                                    (ps.last(), &*buffer),
                                    None::<LinePos>,
                                )
                            };
                        assert(ps.len() == 1);
                        assert(call_ensures(find_next_word_start, (cpos, &*buffer), Some(q)));
                    },
                    None => {
                        assert(call_ensures(find_next_word_start, (cpos, &*buffer), None::<
                            LinePos,
                        >));
                    },
                }
            }
        }
        if let Some(mut pos) = found {
            if action == Some(Action::Delete) {
                if pos.col > 0 {
                    pos.col = pos.col - 1;
                } else if pos.line > 0 {
                    pos.line = pos.line - 1;
                    if pos.line < buffer.total_lines() {
                        pos.col = buffer.line_len(pos.line);
                    }
                }
                let t2 = buffer.total_lines();
                if pos.line < t2 && cpos.line < t2 && (cpos.line < pos.line || (cpos.line
                    == pos.line && cpos.col <= pos.col)) {
                    let l2 = buffer.line_len(pos.line);
                    if pos.col <= l2 {
                        buffer.remove_by_range(cpos, pos);
                    }
                }
            } else {
                set_cursor(cursor, buffer, pos);
            }
        }
    }
    clamp_cursor(cursor, buffer);
}

/// Moves to (or deletes through) the next word end.
fn do_word_end(
    buffer: &mut TextBuffer,
    cursor: &mut CursorPos,
    action: Option<Action>,
    modifier: Option<Modifier>,
)
    requires
        old(buffer).wf(),
        cursor_ok(*old(buffer), *old(cursor)),
    ensures
        final(buffer).wf(),
        cursor_ok(*final(buffer), *final(cursor)),
        action != Some(Action::Delete) ==> *final(buffer) == *old(buffer),
{
    if buffer.byte_len() >= usize::MAX / 2 {
        clamp_cursor(cursor, buffer);
        return ;
    }
    let cpos = cursor.to_linepos();
    let times = match modifier {
        Some(Modifier::Count(n)) => n,
        _ => 1,
    };
    if cursor.x - 1 > buffer.line_len(cursor.y - 1) {
        clamp_cursor(cursor, buffer);
        return ;
    }
    let found = count(cpos, buffer, times, find_next_word_end);
    if let Some(pos) = found {
        if action == Some(Action::Delete) {
            let t2 = buffer.total_lines();
            if pos.line < t2 && cpos.line < t2 && (cpos.line < pos.line || (cpos.line == pos.line
                && cpos.col <= pos.col)) {
                let l2 = buffer.line_len(pos.line);
                if pos.col <= l2 {
                    buffer.remove_by_range(cpos, pos);
                }
            }
        } else {
            set_cursor(cursor, buffer, pos);
        }
    }
    clamp_cursor(cursor, buffer);
}

/// Deletes the visual selection: the inclusive character range in Visual
/// mode, every spanned line in VisualLine mode; returns to Normal mode.
#[verifier::rlimit(100)]
#[verifier::spinoff_prover]
fn do_visual_selection(
    buffer: &mut TextBuffer,
    cursor: &mut CursorPos,
    mode: &mut EditorMode,
    anchor: LinePos,
    action: Option<Action>,
)
    requires
        old(buffer).wf(),
        cursor_ok(*old(buffer), *old(cursor)),
    ensures
        final(buffer).wf(),
        cursor_ok(*final(buffer), *final(cursor)),
        action != Some(Action::Delete) ==> *final(buffer) == *old(buffer),
        action == Some(Action::Delete) && *old(mode) == EditorMode::VisualLine ==> ({
            let cpos = LinePos { line: (old(cursor).y - 1) as usize, col: (old(cursor).x - 1) as usize };
            let lo = if pos_le(anchor, cpos) {
                anchor
            } else {
                cpos
            };
            let hi = if pos_le(anchor, cpos) {
                cpos
            } else {
                anchor
            };
            (lo.line <= hi.line && hi.line < old(buffer).line_count() && lo.line < usize::MAX
                && lo.col < usize::MAX) ==> ({
                let t2 = final(buffer).line_count();
                let nl: int = if lo.line < t2 {
                    lo.line as int
                } else {
                    t2 - 1
                };
                let l2 = final(buffer).line_view(nl).len() as int;
                let c2: int = if lo.col <= l2 {
                    lo.col as int
                } else {
                    l2
                };
                &&& *final(mode) == EditorMode::Normal
                &&& final(cursor).y as int == nl + 1
                &&& final(cursor).x as int == c2 + 1
            })
        }),
        action == Some(Action::Delete) && *old(mode) == EditorMode::Visual ==> ({
            let cpos = LinePos { line: (old(cursor).y - 1) as usize, col: (old(cursor).x - 1) as usize };
            let lo = if pos_le(anchor, cpos) {
                anchor
            } else {
                cpos
            };
            let hi = if pos_le(anchor, cpos) {
                cpos
            } else {
                anchor
            };
            let n = old(buffer).line_count();
            let lv = old(buffer).line_view(lo.line as int);
            let ev = old(buffer).line_view(hi.line as int);
            (hi.line < n && lo.col <= lv.len() && hi.col <= ev.len() && (lo.line != hi.line
                || lo.col <= hi.col)) ==> ({
                &&& *final(mode) == EditorMode::Normal
                &&& (lo.line < usize::MAX && lo.col < usize::MAX ==> ({
                    let l2 = final(buffer).line_view(lo.line as int).len() as int;
                    let c2: int = if lo.col <= l2 {
                        lo.col as int
                    } else {
                        l2
                    };
                    &&& final(cursor).y as int == lo.line + 1
                    &&& final(cursor).x as int == c2 + 1
                    &&& final(cursor).wanted_x == final(cursor).x
                }))
                &&& (lo.line == hi.line ==> ({
                    let cnt = if hi.col + 1 - lo.col <= lv.len() - lo.col {
                        hi.col + 1 - lo.col
                    } else {
                        lv.len() - lo.col
                    };
                    if hi.col == lv.len() && lo.line < n - 1 {
                        final(buffer).line_count() == n - 1 && final(buffer).line_view(
                            lo.line as int,
                        ) == lv.take(lo.col as int) + old(buffer).line_view(lo.line + 1)
                    } else {
                        final(buffer).line_count() == n && final(buffer).line_view(
                            lo.line as int,
                        ) == lv.take(lo.col as int) + lv.skip(lo.col + cnt)
                    }
                }))
                &&& (lo.line < hi.line ==> ({
                    let head = if hi.col + 1 <= ev.len() {
                        hi.col + 1
                    } else {
                        ev.len() as int
                    };
                    final(buffer).line_count() == n - (hi.line - lo.line) && final(buffer).line_view(lo.line as int) == lv.take(lo.col as int) + ev.skip(head)
                }))
            })
        }),
{
    let cpos = cursor.to_linepos();
    let total = buffer.total_lines();
    if action == Some(Action::Delete) {
        if *mode == EditorMode::Visual {
            let lo = anchor.min(cpos);
            let hi = anchor.max(cpos);
            if hi.line < total && lo.line < total {
                let llo = buffer.line_len(lo.line);
                let lhi = buffer.line_len(hi.line);
                if lo.col <= llo && hi.col <= lhi && (lo.line != hi.line || lo.col <= hi.col) {
                    buffer.remove_by_range(lo, hi);
                    let t2 = buffer.total_lines();
                    if lo.line < t2 {
                        let l2 = buffer.line_len(lo.line);
                        let c2 = if lo.col <= l2 {
                            lo.col
                        } else {
                            l2
                        };
                        set_cursor(cursor, buffer, LinePos { line: lo.line, col: c2 });
                    }
                    *mode = EditorMode::Normal;
                }
            }
        } else if *mode == EditorMode::VisualLine {
            let lo = anchor.min(cpos);
            let hi = anchor.max(cpos);
            if lo.line <= hi.line && hi.line < total {
                let n_rm = hi.line - lo.line + 1;
                let mut k: usize = 0;
                while k < n_rm
                    invariant
                        buffer.wf(),
                        k <= n_rm,
                    decreases n_rm - k,
                {
                    if lo.line < buffer.total_lines() {
                        buffer.remove_line(lo.line);
                    }
                    k = k + 1;
                }
                let t2 = buffer.total_lines();
                let nl = if lo.line < t2 {
                    lo.line
                } else {
                    t2 - 1
                };
                let l2 = buffer.line_len(nl);
                let c2 = if lo.col <= l2 {
                    lo.col
                } else {
                    l2
                };
                set_cursor(cursor, buffer, LinePos { line: nl, col: c2 });
                *mode = EditorMode::Normal;
            }
        }
    }
    clamp_cursor(cursor, buffer);
}

/// The plain cursor motions and character deletions within one line.
#[verifier::rlimit(100)]
#[verifier::spinoff_prover]
fn do_simple_move(
    buffer: &mut TextBuffer,
    cursor: &mut CursorPos,
    mode: EditorMode,
    obj: Object,
    action: Option<Action>,
    modifier: Option<Modifier>,
)
    requires
        old(buffer).wf(),
        cursor_ok(*old(buffer), *old(cursor)),
    ensures
        final(buffer).wf(),
        cursor_ok(*final(buffer), *final(cursor)),
        action != Some(Action::Delete) ==> *final(buffer) == *old(buffer),
        (obj == Object::Left || obj == Object::Right || obj == Object::Up || obj == Object::Down)
            ==> *final(buffer) == *old(buffer),
        obj == Object::Left ==> final(cursor).y == old(cursor).y && final(cursor).x as int == (
        if old(cursor).x > 1 {
            old(cursor).x - 1
        } else {
            old(cursor).x as int
        }) && (old(cursor).x > 1 ==> final(cursor).wanted_x == final(cursor).x),
        obj == Object::Right ==> final(cursor).y == old(cursor).y && final(cursor).x as int == ({
            let ll = old(buffer).line_view(old(cursor).y - 1).len() as int;
            if old(cursor).x < ll {
                old(cursor).x + 1
            } else if mode == EditorMode::Visual && old(cursor).x == ll && ll < usize::MAX {
                old(cursor).x + 1
            } else {
                old(cursor).x as int
            }
        }),
        obj == Object::Right && final(cursor).x != old(cursor).x ==> final(cursor).wanted_x
            == final(cursor).x,
        obj == Object::Up ==> final(cursor).y as int == (if old(cursor).y > 1 {
            old(cursor).y - 1
        } else {
            old(cursor).y as int
        }) && (old(cursor).y > 1 ==> final(cursor).x as int == ({
            let lu = old(buffer).line_view(old(cursor).y - 2).len() as int;
            let mx = if lu >= 1 {
                lu
            } else {
                1
            };
            if old(cursor).wanted_x > mx {
                mx
            } else {
                old(cursor).wanted_x as int
            }
        })),
        obj == Object::Down ==> final(cursor).y as int == (if old(cursor).y < old(buffer).line_count() {
            old(cursor).y + 1
        } else {
            old(cursor).y as int
        }) && (old(cursor).y < old(buffer).line_count() ==> final(cursor).x as int == ({
            let ld = old(buffer).line_view(old(cursor).y as int).len() as int;
            let mx = if ld >= 1 {
                ld
            } else {
                1
            };
            if old(cursor).wanted_x > mx {
                mx
            } else {
                old(cursor).wanted_x as int
            }
        })),
        obj == Object::LineStart ==> final(cursor).x == 1,
        obj == Object::LineStart && action == Some(Action::Delete) ==> final(buffer).line_count() == old(buffer).line_count() && final(buffer).line_view(old(cursor).y - 1)
            == old(buffer).line_view(old(cursor).y - 1).skip(old(cursor).x - 1) && (forall|j: int|
            0 <= j < old(buffer).line_count() && j != old(cursor).y - 1 ==> #[trigger] final(buffer).line_view(j) == old(buffer).line_view(j)),
        obj == Object::LineEnd && action == Some(Action::Delete) ==> final(buffer).line_count()
            == old(buffer).line_count() && final(buffer).line_view(old(cursor).y - 1) == old(buffer).line_view(old(cursor).y - 1).take(old(cursor).x - 1) && (forall|j: int|
            0 <= j < old(buffer).line_count() && j != old(cursor).y - 1 ==> #[trigger] final(buffer).line_view(j) == old(buffer).line_view(j)),
        obj == Object::LineEnd && action != Some(Action::Delete) ==> final(cursor).x as int == ({
            let ll = old(buffer).line_view(old(cursor).y - 1).len() as int;
            if mode == EditorMode::Visual && ll < usize::MAX {
                ll + 1
            } else if ll >= 1 {
                ll
            } else {
                1
            }
        }) && final(cursor).wanted_x == final(cursor).x && final(cursor).y == old(cursor).y,
        obj == Object::CharUnderCursor && action == Some(Action::Delete) ==> ({
            let ll = old(buffer).line_view(old(cursor).y - 1).len() as int;
            let times: int = match modifier {
                Some(Modifier::Count(n)) => n as int,
                _ => 1,
            };
            let cnt = if times <= ll - (old(cursor).x - 1) {
                times
            } else {
                ll - (old(cursor).x - 1)
            };
            ll > 0 && old(cursor).x - 1 < ll ==> final(buffer).line_count() == old(buffer).line_count() && final(buffer).line_view(old(cursor).y - 1) == old(buffer).line_view(old(cursor).y - 1).take(old(cursor).x - 1) + old(buffer).line_view(
                old(cursor).y - 1,
            ).skip(old(cursor).x - 1 + cnt) && (forall|j: int|
                0 <= j < old(buffer).line_count() && j != old(cursor).y - 1 ==> #[trigger] final(buffer).line_view(j) == old(buffer).line_view(j)) && final(cursor).y == old(cursor).y && final(cursor).x as int == (if old(cursor).x - 1 >= ll - cnt && old(cursor).x
                > 1 {
                old(cursor).x - 1
            } else {
                old(cursor).x as int
            })
        }),
{
    let total = buffer.total_lines();
    let ll = buffer.line_len(cursor.y - 1);
    match obj {
        Object::Up => {
            if cursor.y > 1 {
                cursor.y = cursor.y - 1;
                let lu = buffer.line_len(cursor.y - 1);
                let max_x = if lu >= 1 {
                    lu
                } else {
                    1
                };
                cursor.x = if cursor.wanted_x > max_x {
                    max_x
                } else {
                    cursor.wanted_x
                };
            }
        },
        Object::Down => {
            if cursor.y < total {
                cursor.y = cursor.y + 1;
                let ld = buffer.line_len(cursor.y - 1);
                let max_x = if ld >= 1 {
                    ld
                } else {
                    1
                };
                cursor.x = if cursor.wanted_x > max_x {
                    max_x
                } else {
                    cursor.wanted_x
                };
            }
        },
        Object::Left => {
            if cursor.x > 1 {
                cursor.x = cursor.x - 1;
                cursor.wanted_x = cursor.x;
            }
        },
        Object::Right => {
            if cursor.x < ll {
                cursor.x = cursor.x + 1;
                cursor.wanted_x = cursor.x;
            } else if mode == EditorMode::Visual && cursor.x == ll && ll < usize::MAX {
                // one column past the end, so the selection can take the
                // line's separator
                cursor.x = cursor.x + 1;
                cursor.wanted_x = cursor.x;
            }
        },
        Object::LineStart => {
            if action == Some(Action::Delete) {
                if cursor.x - 1 <= ll {
                    buffer.remove_from_line(cursor.y - 1, 0, cursor.x - 1);
                }
            }
            cursor.x = 1;
            cursor.wanted_x = 1;
        },
        Object::LineEnd => {
            if action == Some(Action::Delete) {
                if cursor.x - 1 <= ll {
                    buffer.remove_from_line(cursor.y - 1, cursor.x - 1, ll - (cursor.x - 1));
                    if cursor.x > 1 {
                        cursor.x = cursor.x - 1;
                        cursor.wanted_x = cursor.x;
                    }
                }
            } else {
                if mode == EditorMode::Visual && ll < usize::MAX {
                    cursor.x = if ll + 1 >= 1 {
                        ll + 1
                    } else {
                        1
                    };
                } else {
                    cursor.x = if ll >= 1 {
                        ll
                    } else {
                        1
                    };
                }
                cursor.wanted_x = cursor.x;
            }
        },
        Object::CharUnderCursor => {
            let times = match modifier {
                Some(Modifier::Count(n)) => n,
                _ => 1,
            };
            if action == Some(Action::Delete) && ll > 0 && cursor.x - 1 < ll {
                let avail = ll - (cursor.x - 1);
                let want: usize = if times as usize <= avail {
                    times as usize
                } else {
                    avail
                };
                buffer.remove_from_line(cursor.y - 1, cursor.x - 1, want);
                let l2 = buffer.line_len(cursor.y - 1);
                if cursor.x - 1 >= l2 && cursor.x > 1 {
                    cursor.x = cursor.x - 1;
                    cursor.wanted_x = cursor.x;
                }
            }
        },
        _ => {},
    }
    clamp_cursor(cursor, buffer);
}

/// Opens an empty line above or below the cursor line, copies the reference
/// line's indentation into it, and puts the cursor there.
fn do_open_line(buffer: &mut TextBuffer, cursor: &mut CursorPos, below: bool)
    requires
        old(buffer).wf(),
        cursor_ok(*old(buffer), *old(cursor)),
    ensures
        final(buffer).wf(),
        cursor_ok(*final(buffer), *final(cursor)),
{
    let total_b = buffer.byte_len();
    if total_b > usize::MAX - 8 {
        clamp_cursor(cursor, buffer);
        return ;
    }
    let row = if below {
        cursor.y
    } else {
        cursor.y - 1
    };
    buffer.insert_empty_line(row);
    if below && cursor.y < usize::MAX {
        cursor.y = cursor.y + 1;
    }
    cursor.x = 1;
    cursor.wanted_x = 1;
    let t2 = buffer.total_lines();
    if row < t2 {
        let ind_opt = indent_wanted(row, buffer);
        if let Some(ind) = ind_opt {
            if ind > 0 {
                insert_spaces(buffer, row, 0, ind);
                if ind < usize::MAX {
                    cursor.x = ind + 1;
                }
                cursor.wanted_x = cursor.x;
            }
        }
    }
    clamp_cursor(cursor, buffer);
}

/// Whole-line commands: delete the line under the cursor, or go to a line by
/// number with the two goto flavors.
#[verifier::rlimit(100)]
#[verifier::spinoff_prover]
fn do_line(
    buffer: &mut TextBuffer,
    cursor: &mut CursorPos,
    action: Option<Action>,
    modifier: Option<Modifier>,
)
    requires
        old(buffer).wf(),
        cursor_ok(*old(buffer), *old(cursor)),
    ensures
        final(buffer).wf(),
        cursor_ok(*final(buffer), *final(cursor)),
        action != Some(Action::Delete) ==> *final(buffer) == *old(buffer),
        action == Some(Action::Delete) && old(buffer).line_count() > 1 ==> final(buffer).line_count() == old(buffer).line_count() - 1 && (forall|j: int|
            0 <= j < old(cursor).y - 1 ==> #[trigger] final(buffer).line_view(j) == old(buffer).line_view(j)) && (forall|j: int|
            old(cursor).y - 1 <= j < old(buffer).line_count() - 1 ==> #[trigger] final(buffer).line_view(j) == old(buffer).line_view(j + 1)),
        action == Some(Action::Delete) && old(buffer).line_count() == 1 ==> final(buffer).line_count() == 1 && final(buffer).line_view(0) == Seq::<char>::empty(),
        action == Some(Action::Delete) ==> ({
            let t2: int = if old(buffer).line_count() > 1 {
                old(buffer).line_count() - 1
            } else {
                1
            };
            let ny: int = if old(cursor).y > t2 {
                t2
            } else {
                old(cursor).y as int
            };
            let l2 = final(buffer).line_view(ny - 1).len() as int;
            &&& final(cursor).y as int == ny
            &&& final(cursor).x as int == (if old(cursor).x > l2 {
                if l2 >= 1 {
                    l2
                } else {
                    1
                }
            } else {
                old(cursor).x as int
            })
        }),
{
    let total = buffer.total_lines();
    if action == Some(Action::Delete) {
        buffer.remove_line(cursor.y - 1);
        let t2 = buffer.total_lines();
        if cursor.y > t2 {
            cursor.y = t2;
        }
        let l2 = buffer.line_len(cursor.y - 1);
        if cursor.x > l2 {
            cursor.x = if l2 >= 1 {
                l2
            } else {
                1
            };
        }
    } else if action == Some(Action::Goto) {
        let want = match modifier {
            Some(Modifier::Count(n)) => n,
            _ => 1,
        };
        let mut line: usize = if want >= 1 {
            (want as usize)
        } else {
            1
        };
        if line > total {
            line = total;
        }
        let l2 = buffer.line_len(line - 1);
        cursor.y = line;
        if l2 < usize::MAX && cursor.x > l2 + 1 {
            cursor.x = l2 + 1;
        }
    } else if action == Some(Action::GOTO) {
        match modifier {
            Some(Modifier::Count(n)) => {
                let mut line: usize = if n >= 1 {
                    (n as usize)
                } else {
                    1
                };
                if line > total {
                    line = total;
                }
                let l2 = buffer.line_len(line - 1);
                cursor.y = line;
                if cursor.x > l2 {
                    cursor.x = if l2 >= 1 {
                        l2
                    } else {
                        1
                    };
                }
            },
            _ => {
                let last = total - 1;
                let l2 = buffer.line_len(last);
                cursor.y = total;
                cursor.x = if cursor.wanted_x > l2 {
                    if l2 >= 1 {
                        l2
                    } else {
                        1
                    }
                } else {
                    cursor.wanted_x
                };
            },
        }
    }
    clamp_cursor(cursor, buffer);
}

/// The first listed position not strictly before `c`, scanning in order.
pub open spec fn first_at_or_after(c: LinePos, ps: Seq<LinePos>) -> Option<LinePos>
    decreases ps.len(),
{
    if ps.len() == 0 {
        None
    } else if !pos_lt(ps[0], c) {
        Some(ps[0])
    } else {
        first_at_or_after(c, ps.drop_first())
    }
}

/// The hit search navigation lands on: the first position at or after the
/// cursor, wrapping to the first listed hit.
pub open spec fn closest_of(c: LinePos, ps: Seq<LinePos>) -> Option<LinePos> {
    if ps.len() == 0 {
        None
    } else {
        match first_at_or_after(c, ps) {
            Some(q) => Some(q),
            None => Some(ps[0]),
        }
    }
}

/// The closest search hit at or after the cursor: the first listed position
/// not strictly before the cursor, wrapping to the first hit when every
/// position lies before it.
pub fn closest_position(cursor: LinePos, positions: &Vec<LinePos>) -> (r: Option<LinePos>)
    ensures
        r == closest_of(cursor, positions@),
        r is Some <==> positions@.len() > 0,
        r matches Some(q) ==> (exists|i: int|
            0 <= i < positions@.len() && #[trigger] positions@[i] == q && !pos_lt(q, cursor) && (
            forall|j: int| 0 <= j < i ==> pos_lt(#[trigger] positions@[j], cursor))) || ((forall|
            j: int,
        | 0 <= j < positions@.len() ==> pos_lt(#[trigger] positions@[j], cursor)) && q
            == positions@[0]),
{
    let n = positions.len();
    if n == 0 {
        return None;
    }
    proof {
        assert(positions@.skip(0) =~= positions@);
    }
    let mut i: usize = 0;
    while i < n
        invariant
            n == positions@.len(),
            i <= n,
            forall|j: int| 0 <= j < i ==> pos_lt(#[trigger] positions@[j], cursor),
            first_at_or_after(cursor, positions@) == first_at_or_after(
                cursor,
                positions@.skip(i as int),
            ),
        decreases n - i,
    {
        let p = positions[i];
        proof {
            assert(positions@.skip(i as int)[0] == p);
        }
        if !(p.line < cursor.line || (p.line == cursor.line && p.col < cursor.col)) {
            proof {
                assert(first_at_or_after(cursor, positions@.skip(i as int)) == Some(p));
            }
            return Some(p);
        }
        proof {
            assert(positions@.skip(i as int).drop_first() =~= positions@.skip(i + 1));
        }
        i = i + 1;
    }
    proof {
        assert(positions@.skip(n as int).len() == 0);
    }
    Some(positions[0])
}

/// The first listed position strictly after the cursor, wrapping to the
/// first hit when none follows it.
pub fn next_position(cursor: LinePos, positions: &Vec<LinePos>) -> (r: Option<LinePos>)
    ensures
        r is Some <==> positions@.len() > 0,
        r matches Some(q) ==> (exists|i: int|
            0 <= i < positions@.len() && #[trigger] positions@[i] == q && pos_lt(cursor, q) && (
            forall|j: int| 0 <= j < i ==> !pos_lt(cursor, #[trigger] positions@[j]))) || ((forall|
            j: int,
        | 0 <= j < positions@.len() ==> !pos_lt(cursor, #[trigger] positions@[j])) && q
            == positions@[0]),
{
    let n = positions.len();
    if n == 0 {
        return None;
    }
    let mut i: usize = 0;
    while i < n
        invariant
            n == positions@.len(),
            i <= n,
            forall|j: int| 0 <= j < i ==> !pos_lt(cursor, #[trigger] positions@[j]),
        decreases n - i,
    {
        let p = positions[i];
        if cursor.line < p.line || (cursor.line == p.line && cursor.col < p.col) {
            return Some(p);
        }
        i = i + 1;
    }
    Some(positions[0])
}

/// The last listed position strictly before the cursor, wrapping to the
/// last hit when none precedes it.
pub fn previous_position(cursor: LinePos, positions: &Vec<LinePos>) -> (r: Option<LinePos>)
    ensures
        r is Some <==> positions@.len() > 0,
        r matches Some(q) ==> (exists|i: int|
            0 <= i < positions@.len() && #[trigger] positions@[i] == q && pos_lt(q, cursor) && (
            forall|j: int|
                i < j < positions@.len() ==> !pos_lt(#[trigger] positions@[j], cursor))) || ((
        forall|j: int| 0 <= j < positions@.len() ==> !pos_lt(#[trigger] positions@[j], cursor))
            && q == positions@[positions@.len() - 1]),
{
    let n = positions.len();
    if n == 0 {
        return None;
    }
    let mut best: Option<LinePos> = None;
    let ghost mut bi: int = -1;
    let mut i: usize = 0;
    while i < n
        invariant
            n == positions@.len(),
            i <= n,
            (best is Some) <==> bi >= 0,
            bi >= 0 ==> bi < i && best == Some(positions@[bi]) && pos_lt(positions@[bi], cursor)
                && (forall|j: int| bi < j < i ==> !pos_lt(#[trigger] positions@[j], cursor)),
            bi < 0 ==> forall|j: int| 0 <= j < i ==> !pos_lt(#[trigger] positions@[j], cursor),
        decreases n - i,
    {
        let p = positions[i];
        if p.line < cursor.line || (p.line == cursor.line && p.col < cursor.col) {
            best = Some(p);
            proof {
                bi = i as int;
            }
        }
        i = i + 1;
    }
    match best {
        Some(p) => Some(p),
        None => Some(positions[n - 1]),
    }
}

} // verus!
