//! The motion grammar: actions, objects and modifiers accumulated from
//! keystrokes into a pending motion, and the word/WORD boundary searches
//! that motions resolve against the text store.

use vstd::prelude::*;

verus! {

use crate::text_buffer::{LinePos, TextBuffer};
use vstd::utf8::decode_utf8;
use crate::editor::EditorMode;
use crate::chars::{is_whitespace, is_alphanumeric, is_whitespace_char, is_alphanumeric_char};

/// An operator pending before its object.
#[derive(PartialEq, Eq, Structural, Clone, Copy, Debug)]
pub enum Action {
    Delete,
    Goto,
    GOTO,
}

/// The target of a motion: a movement, a text object, or a mode switch.
#[derive(PartialEq, Eq, Structural, Clone, Copy, Debug)]
#[allow(non_camel_case_types)]
pub enum Object {
    BackWord,
    BackWORD,
    Word,
    WordEnd,
    WORD,
    WORDEnd,
    Append,
    Insert,
    NormalMode,
    VisualMode,
    VisualLineMode,
    CommandBarMode,
    SearchMode,
    VisualSelection,
    Up,
    Down,
    Left,
    Right,
    Line,
    LineStart,
    LineEnd,
    CharUnderCursor,
    NextSearchResult,
    PreviousSearchResult,
    InsertLineUp,
    InsertLineDown,
}

/// A qualifier on an action or object.
#[derive(PartialEq, Eq, Structural, Clone, Copy, Debug)]
pub enum Modifier {
    Around,
    Inside,
    FindForwards,
    FindBackwards,
    TillForwards,
    TillBackwards,
    Count(u32),
}

/// The pending motion, rebuilt over a short run of keystrokes.
pub struct Motion {
    pub action: Option<Action>,
    pub object: Option<Object>,
    pub modifier: Option<Modifier>,
}

/// What one keystroke does to the pending motion, as a table: digits build a
/// count, a repeated operator selects the whole line, `a`/`i` are modifiers
/// after an operator or in visual mode and objects otherwise.
pub open spec fn parse_step(m: Motion, c: char, mode: EditorMode) -> Motion {
    if c == '$' {
        Motion { object: Some(Object::LineEnd), ..m }
    } else if '1' <= c <= '9' {
        let d = (c as u32 - '0' as u32) as u32;
        match m.modifier {
            Some(Modifier::Count(n)) => Motion {
                modifier: Some(Modifier::Count(n.wrapping_mul(10).wrapping_add(d))),
                ..m
            },
            _ => Motion { modifier: Some(Modifier::Count(d)), ..m },
        }
    } else if c == '0' {
        match m.modifier {
            Some(Modifier::Count(n)) => Motion {
                modifier: Some(Modifier::Count(n.wrapping_mul(10))),
                ..m
            },
            _ => Motion { object: Some(Object::LineStart), ..m },
        }
    } else if c == 'a' {
        if mode is Visual || m.action == Some(Action::Delete) {
            Motion { modifier: Some(Modifier::Around), ..m }
        } else {
            Motion { object: Some(Object::Append), ..m }
        }
    } else if c == 'b' {
        Motion { object: Some(Object::BackWord), ..m }
    } else if c == 'd' {
        if m.action == Some(Action::Delete) {
            Motion { object: Some(Object::Line), ..m }
        } else if mode is Visual || mode is VisualLine {
            Motion { action: Some(Action::Delete), object: Some(Object::VisualSelection), ..m }
        } else {
            Motion { action: Some(Action::Delete), ..m }
        }
    } else if c == 'e' {
        Motion { object: Some(Object::WordEnd), ..m }
    } else if c == 'g' {
        if m.action == Some(Action::Goto) {
            Motion { object: Some(Object::Line), ..m }
        } else {
            Motion { action: Some(Action::Goto), ..m }
        }
    } else if c == 'G' {
        Motion { action: Some(Action::GOTO), object: Some(Object::Line), ..m }
    } else if c == 'h' {
        Motion { object: Some(Object::Left), ..m }
    } else if c == 'i' {
        if mode is Visual || m.action == Some(Action::Delete) {
            Motion { modifier: Some(Modifier::Inside), ..m }
        } else {
            Motion { object: Some(Object::Insert), ..m }
        }
    } else if c == 'j' {
        Motion { object: Some(Object::Down), ..m }
    } else if c == 'k' {
        Motion { object: Some(Object::Up), ..m }
    } else if c == 'l' {
        Motion { object: Some(Object::Right), ..m }
    } else if c == 'n' {
        Motion { object: Some(Object::NextSearchResult), ..m }
    } else if c == 'N' {
        Motion { object: Some(Object::PreviousSearchResult), ..m }
    } else if c == 'o' {
        Motion { object: Some(Object::InsertLineDown), ..m }
    } else if c == 'O' {
        Motion { object: Some(Object::InsertLineUp), ..m }
    } else if c == 'v' {
        Motion { object: Some(Object::VisualMode), ..m }
    } else if c == 'V' {
        Motion { object: Some(Object::VisualLineMode), ..m }
    } else if c == 'w' {
        Motion { object: Some(Object::Word), ..m }
    } else if c == 'W' {
        Motion { object: Some(Object::WORD), ..m }
    } else if c == 'x' {
        Motion { action: Some(Action::Delete), object: Some(Object::CharUnderCursor), ..m }
    } else if c == ':' {
        Motion { object: Some(Object::CommandBarMode), ..m }
    } else if c == '/' {
        Motion { object: Some(Object::SearchMode), ..m }
    } else {
        m
    }
}

impl Motion {
    pub open spec fn is_empty(self) -> bool {
        self.action is None && self.object is None && self.modifier is None
    }

    pub fn new() -> (r: Self)
        ensures
            r.is_empty(),
    {
        Motion { action: None, object: None, modifier: None }
    }

    pub fn clear(&mut self)
        ensures
            final(self).is_empty(),
    {
        self.action = None;
        self.object = None;
        self.modifier = None;
    }

    /// Feeds one keystroke into the pending motion, exactly as the keystroke
    /// table `parse_step` describes.
    pub fn parse(&mut self, c: char, current_mode: EditorMode)
        ensures
            *final(self) == parse_step(*old(self), c, current_mode),
    {
        if c == '$' {
            self.object = Some(Object::LineEnd);
        } else if '1' <= c && c <= '9' {
            let d = c as u32 - '0' as u32;
            match self.modifier {
                Some(Modifier::Count(n)) => {
                    self.modifier = Some(Modifier::Count(n.wrapping_mul(10).wrapping_add(d)));
                },
                _ => {
                    self.modifier = Some(Modifier::Count(d));
                },
            }
        } else if c == '0' {
            match self.modifier {
                Some(Modifier::Count(n)) => {
                    self.modifier = Some(Modifier::Count(n.wrapping_mul(10)));
                },
                _ => {
                    self.object = Some(Object::LineStart);
                },
            }
        } else if c == 'a' {
            if current_mode == EditorMode::Visual || self.action == Some(Action::Delete) {
                self.modifier = Some(Modifier::Around);
            } else {
                self.object = Some(Object::Append);
            }
        } else if c == 'b' {
            self.object = Some(Object::BackWord);
        } else if c == 'd' {
            if self.action == Some(Action::Delete) {
                self.object = Some(Object::Line);
            } else if current_mode == EditorMode::Visual || current_mode
                == EditorMode::VisualLine {
                self.action = Some(Action::Delete);
                self.object = Some(Object::VisualSelection);
            } else {
                self.action = Some(Action::Delete);
            }
        } else if c == 'e' {
            self.object = Some(Object::WordEnd);
        } else if c == 'g' {
            if self.action == Some(Action::Goto) {
                self.object = Some(Object::Line);
            } else {
                self.action = Some(Action::Goto);
            }
        } else if c == 'G' {
            self.action = Some(Action::GOTO);
            self.object = Some(Object::Line);
        } else if c == 'h' {
            self.object = Some(Object::Left);
        } else if c == 'i' {
            if current_mode == EditorMode::Visual || self.action == Some(Action::Delete) {
                self.modifier = Some(Modifier::Inside);
            } else {
                self.object = Some(Object::Insert);
            }
        } else if c == 'j' {
            self.object = Some(Object::Down);
        } else if c == 'k' {
            self.object = Some(Object::Up);
        } else if c == 'l' {
            self.object = Some(Object::Right);
        } else if c == 'n' {
            self.object = Some(Object::NextSearchResult);
        } else if c == 'N' {
            self.object = Some(Object::PreviousSearchResult);
        } else if c == 'o' {
            self.object = Some(Object::InsertLineDown);
        } else if c == 'O' {
            self.object = Some(Object::InsertLineUp);
        } else if c == 'v' {
            self.object = Some(Object::VisualMode);
        } else if c == 'V' {
            self.object = Some(Object::VisualLineMode);
        } else if c == 'w' {
            self.object = Some(Object::Word);
        } else if c == 'W' {
            self.object = Some(Object::WORD);
        } else if c == 'x' {
            self.action = Some(Action::Delete);
            self.object = Some(Object::CharUnderCursor);
        } else if c == ':' {
            self.object = Some(Object::CommandBarMode);
        } else if c == '/' {
            self.object = Some(Object::SearchMode);
        }
    }
}

/// A cursor position that the mode controller accepts: its line exists and
/// its column is at most the line's character count.
pub open spec fn pos_in(buf: TextBuffer, p: LinePos) -> bool {
    &&& p.line < buf.line_count()
    &&& p.col <= buf.line_view(p.line as int).len()
}

/// A maximal run of letters/digits/underscores is a word; so is a run of
/// other non-whitespace characters.
pub open spec fn letter_char(c: char) -> bool {
    is_alphanumeric_char(c) || c == '_'
}

pub open spec fn special_char(c: char) -> bool {
    !(is_whitespace_char(c) || is_alphanumeric_char(c) || c == '_')
}

/// Whether the character belongs to the letter class of vim words.
pub fn is_letter(c: char) -> (r: bool)
    ensures
        r == letter_char(c),
{
    is_alphanumeric(c) || c == '_'
}

/// Whether the character is punctuation: neither whitespace nor a letter.
pub fn is_special(c: char) -> (r: bool)
    ensures
        r == special_char(c),
{
    !(is_whitespace(c) || is_alphanumeric(c) || c == '_')
}

/// The positions `ps` form a chain of successful steps of `f` from `cursor`:
/// each step's result feeds the next call.
pub open spec fn step_chain<F: Fn(LinePos, &TextBuffer) -> Option<LinePos>>(
    f: F,
    cursor: LinePos,
    buf: &TextBuffer,
    ps: Seq<LinePos>,
) -> bool {
    &&& ps.len() >= 1
    &&& call_ensures(f, (cursor, buf), Some(ps[0]))
    &&& forall|t: int|
        0 <= t < ps.len() - 1 ==> call_ensures(f, (ps[t], buf), Some(#[trigger] ps[t + 1]))
}

/// Repeats a single-step motion up to `times` times, keeping the last
/// position a step produced; a failing step ends the chain early, and a
/// failing first step (or a zero count) yields nothing.
pub fn count<F: Fn(LinePos, &TextBuffer) -> Option<LinePos>>(
    cursor: LinePos,
    buf: &TextBuffer,
    times: u32,
    f: F,
) -> (r: Option<LinePos>)
    requires
        buf.wf(),
        pos_in(*buf, cursor),
        forall|p: LinePos| pos_in(*buf, p) ==> call_requires(f, (p, buf)),
        forall|p: LinePos, q: LinePos|
            call_ensures(f, (p, buf), Some(q)) ==> pos_in(*buf, q),
    ensures
        r matches Some(q) ==> pos_in(*buf, q),
        r is None ==> times == 0 || call_ensures(f, (cursor, buf), None::<LinePos>),
        r matches Some(q) ==> exists|ps: Seq<LinePos>|
            {
                &&& #[trigger] step_chain(f, cursor, buf, ps)
                &&& 1 <= ps.len() <= times
                &&& q == ps.last()
                &&& ps.len() < times ==> call_ensures(f, (ps.last(), buf), None::<LinePos>)
            },
{
    let mut last_pos: Option<LinePos> = None;
    let mut cur = cursor;
    let mut i: u32 = 0;
    let ghost mut tr: Seq<LinePos> = Seq::empty();
    while i < times
        invariant
            buf.wf(),
            pos_in(*buf, cur),
            forall|p: LinePos| pos_in(*buf, p) ==> call_requires(f, (p, buf)),
            forall|p: LinePos, q: LinePos|
                call_ensures(f, (p, buf), Some(q)) ==> pos_in(*buf, q),
            i <= times,
            tr.len() == i,
            last_pos is None ==> i == 0,
            last_pos matches Some(q) ==> pos_in(*buf, q) && tr.len() >= 1 && q == tr.last()
                && cur == q && step_chain(f, cursor, buf, tr),
            i == 0 ==> cur == cursor,
        decreases times - i,
    {
        let step = f(cur, buf);
        match step {
            Some(pos) => {
                proof {
                    let ghost prev = tr;
                    tr = tr.push(pos);
                    if prev.len() > 0 {
                        assert(step_chain(f, cursor, buf, tr)) by {
                            assert(tr[0] == prev[0]);
                            assert forall|t: int| 0 <= t < tr.len() - 1 implies call_ensures(
                                f,
                                (tr[t], buf),
                                Some(#[trigger] tr[t + 1]),
                            ) by {
                                if t < prev.len() - 1 {
                                    assert(tr[t] == prev[t] && tr[t + 1] == prev[t + 1]);
                                } else {
                                    assert(tr[t] == prev.last() && tr[t + 1] == pos);
                                }
                            }
                        }
                    }
                }
                cur = pos;
                last_pos = Some(pos);
            },
            None => {
                proof {
                    match last_pos {
                        Some(q) => {
                            assert(step_chain(f, cursor, buf, tr) && q == tr.last() && tr.len()
                                < times && call_ensures(f, (tr.last(), buf), None::<LinePos>));
                        },
                        None => {},
                    }
                }
                return last_pos;
            },
        }
        i = i + 1;
    }
    proof {
        match last_pos {
            Some(q) => {
                assert(step_chain(f, cursor, buf, tr) && tr.len() == times);
            },
            None => {},
        }
    }
    last_pos
}

/// Which characters end a scan that stays inside the class of the cursor
/// character `c0`: a letter scan stops on whitespace or punctuation, a
/// whitespace scan on letters or punctuation, a punctuation scan on letters
/// or whitespace.
pub open spec fn breaks_class(c0: char, c: char) -> bool {
    if letter_char(c0) {
        is_whitespace_char(c) || special_char(c)
    } else if is_whitespace_char(c0) {
        letter_char(c) || special_char(c)
    } else {
        letter_char(c) || is_whitespace_char(c)
    }
}

/// The backward scan for the current token's start: examining the characters
/// of `cs` from the end, it stops at a separator with the current column, one
/// past a character of a breaking class, or at column zero.
pub open spec fn cur_start_scan(cs: Seq<char>, c0: char, col: int) -> int
    decreases cs.len(),
{
    if cs.len() == 0 {
        col
    } else {
        let ch = cs.last();
        if ch == '\r' || ch == '\n' {
            col
        } else if breaks_class(c0, ch) {
            col + 1
        } else if col == 0 {
            0
        } else {
            cur_start_scan(cs.drop_last(), c0, col - 1)
        }
    }
}

/// The forward scan for the current token's end: examining the characters of
/// `cs` from the front, it stops at a separator or at a character of a
/// breaking class, having counted the columns walked over.
pub open spec fn cur_end_scan(cs: Seq<char>, c0: char, col: int) -> int
    decreases cs.len(),
{
    if cs.len() == 0 {
        col
    } else {
        let ch = cs[0];
        if ch == '\r' || ch == '\n' {
            col
        } else if breaks_class(c0, ch) {
            col
        } else {
            cur_end_scan(cs.drop_first(), c0, col + 1)
        }
    }
}

/// Like `cur_start_scan`, for WORDs: only the whitespace boundary matters,
/// and a whitespace cursor character scans for non-whitespace.
pub open spec fn cur_start_scan_w(cs: Seq<char>, ws0: bool, col: int) -> int
    decreases cs.len(),
{
    if cs.len() == 0 {
        col
    } else {
        let ch = cs.last();
        if ch == '\r' || ch == '\n' {
            col
        } else if is_whitespace_char(ch) != ws0 {
            col + 1
        } else if col == 0 {
            0
        } else {
            cur_start_scan_w(cs.drop_last(), ws0, col - 1)
        }
    }
}

/// Like `cur_end_scan`, for WORDs.
pub open spec fn cur_end_scan_w(cs: Seq<char>, ws0: bool, col: int) -> int
    decreases cs.len(),
{
    if cs.len() == 0 {
        col
    } else {
        let ch = cs[0];
        if ch == '\r' || ch == '\n' {
            col
        } else if is_whitespace_char(ch) != ws0 {
            col
        } else {
            cur_end_scan_w(cs.drop_first(), ws0, col + 1)
        }
    }
}

/// The forward word scan across line ends: a line feed counts a line and
/// resets the column so the next character lands at column zero; in the
/// letter-anchored scan anything that is neither alphanumeric, space nor
/// underscore stops it, as does a letter after whitespace; otherwise the
/// first non-whitespace after whitespace or any alphanumeric stops it.
pub open spec fn next_word_scan(
    cs: Seq<char>,
    letters: bool,
    fw: bool,
    la: int,
    col: int,
    creset: bool,
) -> Option<(int, int)>
    decreases cs.len(),
{
    if cs.len() == 0 {
        None
    } else {
        let ch = cs[0];
        if ch == '\n' {
            next_word_scan(cs.drop_first(), letters, true, la + 1, 0, true)
        } else {
            let fw2 = fw || is_whitespace_char(ch);
            let col2 = if creset {
                col
            } else {
                col + 1
            };
            if letters {
                if !is_alphanumeric_char(ch) && ch != ' ' && ch != '_' {
                    Some((la, col2))
                } else if fw2 && letter_char(ch) {
                    Some((la, col2))
                } else {
                    next_word_scan(cs.drop_first(), letters, fw2, la, col2, false)
                }
            } else {
                if (fw2 && !is_whitespace_char(ch)) || is_alphanumeric_char(ch) {
                    Some((la, col2))
                } else {
                    next_word_scan(cs.drop_first(), letters, fw2, la, col2, false)
                }
            }
        }
    }
}

/// The whole next-word search from the cursor: the first character selects
/// the letter or non-letter scan and seeds its whitespace state.
pub open spec fn next_word_result(cs: Seq<char>, col0: int) -> Option<(int, int)> {
    if cs.len() == 0 {
        None
    } else {
        let c = cs[0];
        if letter_char(c) {
            next_word_scan(cs.drop_first(), true, false, 0, col0, false)
        } else if c == '\n' {
            next_word_scan(cs.drop_first(), false, true, 1, 0, true)
        } else if is_whitespace_char(c) {
            next_word_scan(cs.drop_first(), false, true, 0, col0, false)
        } else {
            next_word_scan(cs.drop_first(), false, false, 0, col0, false)
        }
    }
}

/// The forward WORD scan: only the whitespace boundary matters.
pub open spec fn next_word_scan_w(cs: Seq<char>, fw: bool, la: int, col: int, creset: bool) -> Option<
    (int, int),
>
    decreases cs.len(),
{
    if cs.len() == 0 {
        None
    } else {
        let ch = cs[0];
        if ch == '\n' {
            next_word_scan_w(cs.drop_first(), true, la + 1, 0, true)
        } else {
            let fw2 = fw || is_whitespace_char(ch);
            let col2 = if creset {
                col
            } else {
                col + 1
            };
            if fw2 && !is_whitespace_char(ch) {
                Some((la, col2))
            } else {
                next_word_scan_w(cs.drop_first(), fw2, la, col2, false)
            }
        }
    }
}

/// The whole next-WORD search from the cursor.
pub open spec fn next_WORD_result(cs: Seq<char>, col0: int) -> Option<(int, int)> {
    if cs.len() == 0 {
        None
    } else if cs[0] == '\n' {
        next_word_scan_w(cs.drop_first(), true, 1, 0, true)
    } else {
        next_word_scan_w(cs.drop_first(), false, 0, col0, false)
    }
}

/// One classification step of the letter/special word scans: a letter locks
/// the scan onto letter runs, punctuation onto punctuation runs, and once a
/// run was entered the first character outside it stops the scan.
pub open spec fn word_flags(lookl: bool, looks: bool, found: bool, ch: char) -> (bool, bool, bool) {
    let f1 = found || (lookl && letter_char(ch));
    let looks1 = if !found && lookl && letter_char(ch) {
        false
    } else {
        looks
    };
    let f2 = f1 || (looks1 && special_char(ch));
    let lookl1 = if !f1 && looks1 && special_char(ch) {
        false
    } else {
        lookl
    };
    (lookl1, looks1, f2)
}

/// The backward word scan: line feeds step to the previous line's last
/// visible column until a run was found, and the scan stops one character
/// into a different class.
pub open spec fn prev_word_scan(
    buf: TextBuffer,
    cs: Seq<char>,
    lookl: bool,
    looks: bool,
    found: bool,
    line: int,
    col: int,
) -> (int, int)
    decreases cs.len(),
{
    if cs.len() == 0 {
        (line, col)
    } else {
        let ch = cs.last();
        if ch == '\n' {
            if found {
                (line, col)
            } else if line == 0 {
                (line, col)
            } else {
                prev_word_scan(
                    buf,
                    cs.drop_last(),
                    lookl,
                    looks,
                    found,
                    line - 1,
                    buf.line_view(line - 1).len() as int,
                )
            }
        } else if ch == '\r' {
            prev_word_scan(buf, cs.drop_last(), lookl, looks, found, line, col)
        } else {
            let fl = word_flags(lookl, looks, found, ch);
            if (fl.2 && fl.0 && !letter_char(ch)) || (fl.2 && fl.1 && !special_char(ch)) {
                (line, col)
            } else if col == 0 {
                (line, 0)
            } else {
                prev_word_scan(buf, cs.drop_last(), fl.0, fl.1, fl.2, line, col - 1)
            }
        }
    }
}

/// The whole previous-word search: the first character behind the cursor
/// seeds the class flags, the scan does the rest.
pub open spec fn prev_word_result(buf: TextBuffer, cs: Seq<char>, line0: int, col0: int) -> (
    int,
    int,
) {
    let c = cs.last();
    if is_whitespace_char(c) {
        prev_word_scan(buf, cs.drop_last(), true, true, false, line0, col0)
    } else if letter_char(c) {
        prev_word_scan(buf, cs.drop_last(), true, false, true, line0, col0)
    } else {
        prev_word_scan(buf, cs.drop_last(), false, true, true, line0, col0)
    }
}

/// The forward word-end scan: line feeds advance to the next line's first
/// column until a run was found, and the scan stops one character into a
/// different class.
pub open spec fn next_end_scan(
    cs: Seq<char>,
    lookl: bool,
    looks: bool,
    found: bool,
    line: int,
    col: int,
) -> (int, int)
    decreases cs.len(),
{
    if cs.len() == 0 {
        (line, col)
    } else {
        let ch = cs[0];
        if ch == '\n' {
            if found {
                (line, col)
            } else {
                next_end_scan(cs.drop_first(), lookl, looks, found, line + 1, 0)
            }
        } else if ch == '\r' {
            next_end_scan(cs.drop_first(), lookl, looks, found, line, col)
        } else {
            let fl = word_flags(lookl, looks, found, ch);
            if (fl.2 && fl.0 && !letter_char(ch)) || (fl.2 && fl.1 && !special_char(ch)) {
                (line, col)
            } else {
                next_end_scan(cs.drop_first(), fl.0, fl.1, fl.2, line, col + 1)
            }
        }
    }
}

/// The whole next-word-end search from the step-forward position.
pub open spec fn next_end_result(cs: Seq<char>, line0: int, col0: int) -> Option<(int, int)> {
    if cs.len() == 0 {
        None
    } else {
        let c = cs[0];
        let seeded = if c == '\n' {
            (line0 + 1, 0int)
        } else {
            (line0, col0)
        };
        if is_whitespace_char(c) {
            Some(next_end_scan(cs.drop_first(), true, true, false, seeded.0, seeded.1))
        } else if letter_char(c) {
            Some(next_end_scan(cs.drop_first(), true, false, true, seeded.0, seeded.1))
        } else {
            Some(next_end_scan(cs.drop_first(), false, true, true, seeded.0, seeded.1))
        }
    }
}

/// The characters a backward scan from `pos` examines: everything decoded
/// before the character one past `pos`.
pub open spec fn stream_before(buf: TextBuffer, pos: LinePos) -> Seq<char> {
    decode_utf8(
        buf.bytes().subrange(
            0,
            buf.line_start(pos.line as int) + crate::utf8_walk::char_off(
                buf.raw_line_bytes(pos.line as int),
                pos.col + 1,
            ),
        ),
    )
}

/// The characters a forward scan from `pos` examines: everything decoded
/// from that character on.
pub open spec fn stream_from(buf: TextBuffer, pos: LinePos) -> Seq<char> {
    decode_utf8(
        buf.bytes().subrange(
            buf.line_start(pos.line as int) + crate::utf8_walk::char_off(
                buf.line_bytes(pos.line as int),
                pos.col as int,
            ),
            buf.bytes().len() as int,
        ),
    )
}

/// Checks a candidate position against the buffer before handing it out; a
/// scan that drifted out of range reports no target instead.
fn check_pos(buf: &TextBuffer, line: usize, col: usize) -> (r: Option<LinePos>)
    requires
        buf.wf(),
    ensures
        r matches Some(q) ==> pos_in(*buf, q) && q.line == line && q.col == col,
        (r is Some) <==> (line < buf.line_count() && col <= buf.line_view(line as int).len()),
{
    let n = buf.total_lines();
    if line < n {
        if col <= buf.line_len(line) {
            Some(LinePos { line, col })
        } else {
            None
        }
    } else {
        None
    }
}

/// Moves to the start of the next word: scans forward for a class change,
/// crossing line ends, and accepts a letter after whitespace as a new word;
/// the result is exactly what `next_word_result` computes on the characters
/// from the cursor on, bounds-checked at the boundary.
#[verifier::rlimit(100)]
#[verifier::spinoff_prover]
pub fn find_next_word_start(cursor: LinePos, buf: &TextBuffer) -> (r: Option<LinePos>)
    requires
        buf.wf(),
        pos_in(*buf, cursor),
        buf.bytes().len() < usize::MAX / 2,
    ensures
        ({
            let res = next_word_result(stream_from(*buf, cursor), cursor.col as int);
            &&& (res is None ==> r is None)
            &&& (res matches Some(rc) ==> ({
                let ln = cursor.line + rc.0;
                &&& (ln < buf.line_count() && 0 <= rc.1 <= buf.line_view(ln as int).len() ==> (
                r matches Some(q) && q.line == ln && q.col == rc.1))
                &&& (!(ln < buf.line_count() && 0 <= rc.1 <= buf.line_view(ln as int).len())
                    ==> r is None)
            }))
        }),
{
    proof {
        buf.lemma_line_valid(cursor.line as int);
        crate::utf8_walk::lemma_decode_len_le(buf.line_bytes(cursor.line as int));
    }
    let total = buf.byte_len();
    let mut iter = buf.utf8_iter(cursor);
    let ghost cs0 = iter.remaining();
    let ghost goal = next_word_result(cs0, cursor.col as int);
    let first = iter.next();
    if first.is_none() {
        proof {
            assert(cs0.len() == 0);
        }
        return None;
    }
    let c = first.unwrap();
    let mut line_add: usize = 0;
    let mut col: usize = cursor.col;
    let mut col_reset = false;
    let mut found = false;
    let mut done = false;
    let letters = is_letter(c);
    let mut found_whitespace = false;
    proof {
        assert(c == cs0[0]);
        assert(cursor.col <= buf.line_view(cursor.line as int).len() <= buf.line_bytes(
            cursor.line as int,
        ).len());
    }
    if !letters {
        if c == '\n' {
            line_add = 1;
            col_reset = true;
            col = 0;
            found_whitespace = true;
        } else if is_whitespace(c) {
            found_whitespace = true;
        }
    }
    while !done
        invariant
            iter.wf(),
            cursor.col + cs0.len() < usize::MAX,
            cs0.len() >= 1,
            cs0.len() <= buf.bytes().len(),
            line_add <= cs0.len() - iter.remaining().len(),
            letters == letter_char(cs0[0]),
            goal == next_word_result(cs0, cursor.col as int),
            !done ==> iter.remaining().len() < cs0.len(),
            !done ==> !found,
            !done ==> line_add + 1 < cs0.len() - iter.remaining().len() + 2,
            !done ==> col <= cursor.col + (cs0.len() - iter.remaining().len()),
            !done ==> goal == next_word_scan(
                iter.remaining(),
                letters,
                found_whitespace,
                line_add as int,
                col as int,
                col_reset,
            ),
            done ==> (found ==> goal == Some((line_add as int, col as int))),
            done ==> (!found ==> goal is None),
        decreases iter.remaining().len() + if done {
            0int
        } else {
            1int
        },
    {
        let ghost pre_rem = iter.remaining();
        let ghost ola = line_add as int;
        let ghost ocol = col as int;
        let ghost ocr = col_reset;
        let ghost ofw = found_whitespace;
        let step = iter.next();
        match step {
            None => {
                proof {
                    assert(pre_rem.len() == 0);
                    assert(next_word_scan(pre_rem, letters, ofw, ola, ocol, ocr) is None);
                }
                done = true;
            },
            Some(ch) => {
                proof {
                    assert(ch == pre_rem[0]);
                    assert(pre_rem.len() > 0);
                }
                if ch == '\n' {
                    line_add = line_add + 1;
                    col = 0;
                    col_reset = true;
                    found_whitespace = true;
                    proof {
                        assert(next_word_scan(pre_rem, letters, ofw, ola, ocol, ocr)
                            == next_word_scan(
                            pre_rem.drop_first(),
                            letters,
                            true,
                            ola + 1,
                            0,
                            true,
                        ));
                        assert(iter.remaining() == pre_rem.drop_first());
                    }
                } else {
                    if !found_whitespace && is_whitespace(ch) {
                        found_whitespace = true;
                    }
                    if col_reset {
                        col_reset = false;
                    } else {
                        col = col + 1;
                    }
                    let hit = if letters {
                        (!is_alphanumeric(ch) && ch != ' ' && ch != '_') || (found_whitespace
                            && is_letter(ch))
                    } else {
                        (found_whitespace && !is_whitespace(ch)) || is_alphanumeric(ch)
                    };
                    proof {
                        assert(found_whitespace == (ofw || is_whitespace_char(ch)));
                        assert(col as int == if ocr {
                            ocol
                        } else {
                            ocol + 1
                        });
                    }
                    if hit {
                        found = true;
                        done = true;
                        proof {
                            assert(next_word_scan(pre_rem, letters, ofw, ola, ocol, ocr) == Some(
                                (line_add as int, col as int),
                            ));
                        }
                    } else {
                        proof {
                            assert(next_word_scan(pre_rem, letters, ofw, ola, ocol, ocr)
                                == next_word_scan(
                                pre_rem.drop_first(),
                                letters,
                                found_whitespace,
                                line_add as int,
                                col as int,
                                false,
                            ));
                            assert(iter.remaining() == pre_rem.drop_first());
                        }
                    }
                }
            },
        }
    }
    if found {
        proof {
            buf.lemma_line_count_bound();
            assert(cursor.line <= usize::MAX - line_add);
        }
        check_pos(buf, cursor.line + line_add, col)
    } else {
        None
    }
}

/// Moves to the start of the next WORD: the first non-whitespace character
/// after whitespace; the result is exactly what `next_WORD_result` computes
/// on the characters from the cursor on.
#[verifier::rlimit(100)]
#[verifier::spinoff_prover]
#[allow(non_snake_case)]
pub fn find_next_WORD_start(cursor: LinePos, buf: &TextBuffer) -> (r: Option<LinePos>)
    requires
        buf.wf(),
        pos_in(*buf, cursor),
        buf.bytes().len() < usize::MAX / 2,
    ensures
        ({
            let res = next_WORD_result(stream_from(*buf, cursor), cursor.col as int);
            &&& (res is None ==> r is None)
            &&& (res matches Some(rc) ==> ({
                let ln = cursor.line + rc.0;
                &&& (ln < buf.line_count() && 0 <= rc.1 <= buf.line_view(ln as int).len() ==> (
                r matches Some(q) && q.line == ln && q.col == rc.1))
                &&& (!(ln < buf.line_count() && 0 <= rc.1 <= buf.line_view(ln as int).len())
                    ==> r is None)
            }))
        }),
{
    proof {
        buf.lemma_line_valid(cursor.line as int);
        crate::utf8_walk::lemma_decode_len_le(buf.line_bytes(cursor.line as int));
    }
    let total = buf.byte_len();
    let mut iter = buf.utf8_iter(cursor);
    let ghost cs0 = iter.remaining();
    let ghost goal = next_WORD_result(cs0, cursor.col as int);
    let first = iter.next();
    if first.is_none() {
        proof {
            assert(cs0.len() == 0);
        }
        return None;
    }
    let c = first.unwrap();
    let mut line_add: usize = 0;
    let mut col: usize = cursor.col;
    let mut col_reset = false;
    let mut found = false;
    let mut done = false;
    let mut found_whitespace = false;
    proof {
        assert(c == cs0[0]);
        assert(cursor.col <= buf.line_view(cursor.line as int).len() <= buf.line_bytes(
            cursor.line as int,
        ).len());
    }
    if c == '\n' {
        line_add = 1;
        col = 0;
        col_reset = true;
        found_whitespace = true;
    }
    while !done
        invariant
            iter.wf(),
            cursor.col + cs0.len() < usize::MAX,
            cs0.len() >= 1,
            cs0.len() <= buf.bytes().len(),
            line_add <= cs0.len() - iter.remaining().len(),
            goal == next_WORD_result(cs0, cursor.col as int),
            !done ==> iter.remaining().len() < cs0.len(),
            !done ==> !found,
            !done ==> line_add + 1 < cs0.len() - iter.remaining().len() + 2,
            !done ==> col <= cursor.col + (cs0.len() - iter.remaining().len()),
            !done ==> goal == next_word_scan_w(
                iter.remaining(),
                found_whitespace,
                line_add as int,
                col as int,
                col_reset,
            ),
            done ==> (found ==> goal == Some((line_add as int, col as int))),
            done ==> (!found ==> goal is None),
        decreases iter.remaining().len() + if done {
            0int
        } else {
            1int
        },
    {
        let ghost pre_rem = iter.remaining();
        let ghost ola = line_add as int;
        let ghost ocol = col as int;
        let ghost ocr = col_reset;
        let ghost ofw = found_whitespace;
        let step = iter.next();
        match step {
            None => {
                proof {
                    assert(pre_rem.len() == 0);
                    assert(next_word_scan_w(pre_rem, ofw, ola, ocol, ocr) is None);
                }
                done = true;
            },
            Some(ch) => {
                proof {
                    assert(ch == pre_rem[0]);
                    assert(pre_rem.len() > 0);
                }
                if ch == '\n' {
                    line_add = line_add + 1;
                    col = 0;
                    col_reset = true;
                    found_whitespace = true;
                    proof {
                        assert(next_word_scan_w(pre_rem, ofw, ola, ocol, ocr) == next_word_scan_w(
                            pre_rem.drop_first(),
                            true,
                            ola + 1,
                            0,
                            true,
                        ));
                        assert(iter.remaining() == pre_rem.drop_first());
                    }
                } else {
                    if !found_whitespace && is_whitespace(ch) {
                        found_whitespace = true;
                    }
                    if col_reset {
                        col_reset = false;
                    } else {
                        col = col + 1;
                    }
                    proof {
                        assert(found_whitespace == (ofw || is_whitespace_char(ch)));
                        assert(col as int == if ocr {
                            ocol
                        } else {
                            ocol + 1
                        });
                    }
                    if found_whitespace && !is_whitespace(ch) {
                        found = true;
                        done = true;
                        proof {
                            assert(next_word_scan_w(pre_rem, ofw, ola, ocol, ocr) == Some(
                                (line_add as int, col as int),
                            ));
                        }
                    } else {
                        proof {
                            assert(next_word_scan_w(pre_rem, ofw, ola, ocol, ocr)
                                == next_word_scan_w(
                                pre_rem.drop_first(),
                                found_whitespace,
                                line_add as int,
                                col as int,
                                false,
                            ));
                            assert(iter.remaining() == pre_rem.drop_first());
                        }
                    }
                }
            },
        }
    }
    if found {
        proof {
            buf.lemma_line_count_bound();
            assert(cursor.line <= usize::MAX - line_add);
        }
        check_pos(buf, cursor.line + line_add, col)
    } else {
        None
    }
}

/// Finds the first character of the token under the cursor: scans backward
/// within the line, staying inside the cursor character's class; the result
/// is exactly what `cur_start_scan` computes on the characters before the
/// cursor, bounds-checked at the boundary.
#[verifier::rlimit(50)]
pub fn find_current_word_start(cursor: LinePos, buf: &TextBuffer) -> (r: Option<LinePos>)
    requires
        buf.wf(),
        cursor.line < buf.line_count(),
        cursor.col < buf.raw_line_view(cursor.line as int).len(),
        buf.bytes().len() < usize::MAX / 2,
    ensures
        ({
            let cs = stream_before(*buf, cursor);
            let res = cur_start_scan(cs, cs.last(), cursor.col as int);
            &&& (res <= buf.line_view(cursor.line as int).len() ==> (r matches Some(q) && q.line
                == cursor.line && q.col == res))
            &&& (res > buf.line_view(cursor.line as int).len() ==> r is None)
        }),
{
    proof {
        buf.lemma_line_valid(cursor.line as int);
        crate::utf8_walk::lemma_decode_len_le(buf.raw_line_bytes(cursor.line as int));
    }
    let total = buf.byte_len();
    let mut iter = buf.utf8_rev_iter(cursor);
    let ghost cs0 = iter.remaining();
    let ghost c0s = cs0.last();
    let ghost goal = cur_start_scan(cs0, c0s, cursor.col as int);
    let first = iter.next();
    let c0 = first.unwrap();
    let mut col: usize = cursor.col;
    let mut done = false;
    proof {
        assert(c0 == c0s);
        assert(cursor.col < total) by {
            assert(cursor.col < buf.raw_line_view(cursor.line as int).len());
        }
    }
    if c0 == '\r' || c0 == '\n' {
        done = true;
        proof {
            assert(cur_start_scan(cs0, c0s, cursor.col as int) == cursor.col);
        }
    } else if breaks_cursor_class(c0, c0) {
        col = col + 1;
        done = true;
        proof {
            assert(cur_start_scan(cs0, c0s, cursor.col as int) == cursor.col + 1);
        }
    } else if col == 0 {
        done = true;
        proof {
            assert(cur_start_scan(cs0, c0s, cursor.col as int) == 0);
        }
    } else {
        col = col - 1;
        proof {
            assert(cur_start_scan(cs0, c0s, cursor.col as int) == cur_start_scan(
                cs0.drop_last(),
                c0s,
                cursor.col - 1,
            ));
            assert(iter.remaining() == cs0.drop_last());
        }
    }
    while !done
        invariant
            iter.wf(),
            cursor.col < usize::MAX,
            c0 == c0s,
            cs0 == stream_before(*buf, cursor),
            c0s == cs0.last(),
            goal == cur_start_scan(cs0, c0s, cursor.col as int),
            !done ==> col <= cursor.col && goal == cur_start_scan(
                iter.remaining(),
                c0s,
                col as int,
            ),
            done ==> goal == col,
        decreases iter.remaining().len() + if done {
            0int
        } else {
            1int
        },
    {
        let ghost pre_rem = iter.remaining();
        let step = iter.next();
        match step {
            None => {
                proof {
                    assert(pre_rem.len() == 0);
                    assert(cur_start_scan(pre_rem, c0s, col as int) == col);
                }
                done = true;
            },
            Some(ch) => {
                let ghost oc = col as int;
                proof {
                    assert(ch == pre_rem.last());
                    assert(pre_rem.len() > 0);
                }
                if ch == '\r' || ch == '\n' {
                    done = true;
                    proof {
                        assert(cur_start_scan(pre_rem, c0s, oc) == oc);
                    }
                } else if breaks_cursor_class(c0, ch) {
                    col = col + 1;
                    done = true;
                    proof {
                        assert(cur_start_scan(pre_rem, c0s, oc) == oc + 1);
                    }
                } else if col == 0 {
                    done = true;
                    proof {
                        assert(cur_start_scan(pre_rem, c0s, oc) == 0);
                    }
                } else {
                    col = col - 1;
                    proof {
                        assert(cur_start_scan(pre_rem, c0s, oc) == cur_start_scan(
                            pre_rem.drop_last(),
                            c0s,
                            oc - 1,
                        ));
                        assert(iter.remaining() == pre_rem.drop_last());
                    }
                }
            },
        }
    }
    check_pos(buf, cursor.line, col)
}

/// Whether `c` ends the scan anchored at cursor character `c0`.
fn breaks_cursor_class(c0: char, c: char) -> (r: bool)
    ensures
        r == breaks_class(c0, c),
{
    if is_letter(c0) {
        is_whitespace(c) || is_special(c)
    } else if is_whitespace(c0) {
        is_letter(c) || is_special(c)
    } else {
        is_letter(c) || is_whitespace(c)
    }
}

/// Finds the last character of the token under the cursor: scans forward
/// within the line, staying inside the cursor character's class; the column
/// one short of what `cur_end_scan` reaches is the result, and a scan that
/// never moved yields nothing.
#[verifier::rlimit(50)]
pub fn find_current_word_end(cursor: LinePos, buf: &TextBuffer) -> (r: Option<LinePos>)
    requires
        buf.wf(),
        pos_in(*buf, cursor),
        buf.bytes().len() < usize::MAX / 2,
    ensures
        ({
            let cs = stream_from(*buf, cursor);
            let e = cur_end_scan(cs, cs[0], cursor.col as int);
            &&& (e == 0 ==> r is None)
            &&& (e > 0 && e - 1 <= buf.line_view(cursor.line as int).len() ==> (r matches Some(q)
                && q.line == cursor.line && q.col == e - 1))
            &&& (e > 0 && e - 1 > buf.line_view(cursor.line as int).len() ==> r is None)
        }),
{
    proof {
        buf.lemma_line_valid(cursor.line as int);
        crate::utf8_walk::lemma_decode_len_le(buf.line_bytes(cursor.line as int));
    }
    let total = buf.byte_len();
    let mut iter = buf.utf8_iter(cursor);
    let ghost cs0 = iter.remaining();
    let ghost c0s = cs0[0];
    let ghost goal = cur_end_scan(cs0, c0s, cursor.col as int);
    let mut col: usize = cursor.col;
    let mut done = false;
    let mut c0 = ' ';
    let first = iter.next();
    match first {
        None => {
            done = true;
            proof {
                assert(cs0.len() == 0);
            }
        },
        Some(c) => {
            c0 = c;
            proof {
                assert(c0 == c0s);
            }
            if c == '\r' || c == '\n' {
                done = true;
                proof {
                    assert(cur_end_scan(cs0, c0s, cursor.col as int) == cursor.col);
                }
            } else if breaks_cursor_class(c0, c0) {
                done = true;
                proof {
                    assert(cur_end_scan(cs0, c0s, cursor.col as int) == cursor.col);
                }
            } else {
                proof {
                    assert(cursor.col < usize::MAX) by {
                        assert(cursor.col <= buf.line_view(cursor.line as int).len());
                        assert(buf.line_view(cursor.line as int).len() <= buf.line_bytes(
                            cursor.line as int,
                        ).len());
                    }
                    assert(cur_end_scan(cs0, c0s, cursor.col as int) == cur_end_scan(
                        cs0.drop_first(),
                        c0s,
                        cursor.col + 1,
                    ));
                }
                col = col + 1;
            }
        },
    }
    while !done
        invariant
            iter.wf(),
            cs0.len() > 0 ==> c0 == c0s,
            goal == cur_end_scan(cs0, c0s, cursor.col as int),
            cursor.col + cs0.len() < usize::MAX,
            !done ==> col <= cursor.col + (cs0.len() - iter.remaining().len()),
            !done ==> iter.remaining().len() <= cs0.len(),
            !done ==> goal == cur_end_scan(iter.remaining(), c0s, col as int),
            done ==> goal == col,
        decreases iter.remaining().len() + if done {
            0int
        } else {
            1int
        },
    {
        let ghost pre_rem = iter.remaining();
        let step = iter.next();
        match step {
            None => {
                proof {
                    assert(pre_rem.len() == 0);
                    assert(cur_end_scan(pre_rem, c0s, col as int) == col);
                }
                done = true;
            },
            Some(ch) => {
                let ghost oc = col as int;
                proof {
                    assert(ch == pre_rem[0]);
                    assert(pre_rem.len() > 0);
                }
                if ch == '\r' || ch == '\n' {
                    done = true;
                    proof {
                        assert(cur_end_scan(pre_rem, c0s, oc) == oc);
                    }
                } else if breaks_cursor_class(c0, ch) {
                    done = true;
                    proof {
                        assert(cur_end_scan(pre_rem, c0s, oc) == oc);
                    }
                } else {
                    proof {
                        assert(cur_end_scan(pre_rem, c0s, oc) == cur_end_scan(
                            pre_rem.drop_first(),
                            c0s,
                            oc + 1,
                        ));
                        assert(iter.remaining() == pre_rem.drop_first());
                    }
                    col = col + 1;
                }
            },
        }
    }
    if col == 0 {
        return None;
    }
    check_pos(buf, cursor.line, col - 1)
}

/// Finds the first character of the whitespace-delimited WORD under the
/// cursor; the result is exactly what `cur_start_scan_w` computes on the
/// characters before the cursor.
#[verifier::rlimit(50)]
#[allow(non_snake_case)]
pub fn find_current_WORD_start(cursor: LinePos, buf: &TextBuffer) -> (r: Option<LinePos>)
    requires
        buf.wf(),
        cursor.line < buf.line_count(),
        cursor.col < buf.raw_line_view(cursor.line as int).len(),
        buf.bytes().len() < usize::MAX / 2,
    ensures
        ({
            let cs = stream_before(*buf, cursor);
            let res = cur_start_scan_w(cs, is_whitespace_char(cs.last()), cursor.col as int);
            &&& (res <= buf.line_view(cursor.line as int).len() ==> (r matches Some(q) && q.line
                == cursor.line && q.col == res))
            &&& (res > buf.line_view(cursor.line as int).len() ==> r is None)
        }),
{
    proof {
        buf.lemma_line_valid(cursor.line as int);
        crate::utf8_walk::lemma_decode_len_le(buf.raw_line_bytes(cursor.line as int));
    }
    let total = buf.byte_len();
    let mut iter = buf.utf8_rev_iter(cursor);
    let ghost cs0 = iter.remaining();
    let ghost ws0 = is_whitespace_char(cs0.last());
    let ghost goal = cur_start_scan_w(cs0, ws0, cursor.col as int);
    let first = iter.next();
    let c0 = first.unwrap();
    let w0 = is_whitespace(c0);
    let mut col: usize = cursor.col;
    let mut done = false;
    proof {
        assert(w0 == ws0);
        assert(cursor.col < total) by {
            assert(cursor.col < buf.raw_line_view(cursor.line as int).len());
        }
    }
    if c0 == '\r' || c0 == '\n' {
        done = true;
        proof {
            assert(cur_start_scan_w(cs0, ws0, cursor.col as int) == cursor.col);
        }
    } else if col == 0 {
        done = true;
        proof {
            assert(cur_start_scan_w(cs0, ws0, cursor.col as int) == 0);
        }
    } else {
        col = col - 1;
        proof {
            assert(cur_start_scan_w(cs0, ws0, cursor.col as int) == cur_start_scan_w(
                cs0.drop_last(),
                ws0,
                cursor.col - 1,
            ));
            assert(iter.remaining() == cs0.drop_last());
        }
    }
    while !done
        invariant
            iter.wf(),
            cursor.col < usize::MAX,
            w0 == ws0,
            cs0 == stream_before(*buf, cursor),
            ws0 == is_whitespace_char(cs0.last()),
            goal == cur_start_scan_w(cs0, ws0, cursor.col as int),
            !done ==> col <= cursor.col && goal == cur_start_scan_w(
                iter.remaining(),
                ws0,
                col as int,
            ),
            done ==> goal == col,
        decreases iter.remaining().len() + if done {
            0int
        } else {
            1int
        },
    {
        let ghost pre_rem = iter.remaining();
        let step = iter.next();
        match step {
            None => {
                proof {
                    assert(pre_rem.len() == 0);
                    assert(cur_start_scan_w(pre_rem, ws0, col as int) == col);
                }
                done = true;
            },
            Some(ch) => {
                let ghost oc = col as int;
                proof {
                    assert(ch == pre_rem.last());
                    assert(pre_rem.len() > 0);
                }
                if ch == '\r' || ch == '\n' {
                    done = true;
                    proof {
                        assert(cur_start_scan_w(pre_rem, ws0, oc) == oc);
                    }
                } else if is_whitespace(ch) != w0 {
                    col = col + 1;
                    done = true;
                    proof {
                        assert(cur_start_scan_w(pre_rem, ws0, oc) == oc + 1);
                    }
                } else if col == 0 {
                    done = true;
                    proof {
                        assert(cur_start_scan_w(pre_rem, ws0, oc) == 0);
                    }
                } else {
                    col = col - 1;
                    proof {
                        assert(cur_start_scan_w(pre_rem, ws0, oc) == cur_start_scan_w(
                            pre_rem.drop_last(),
                            ws0,
                            oc - 1,
                        ));
                        assert(iter.remaining() == pre_rem.drop_last());
                    }
                }
            },
        }
    }
    check_pos(buf, cursor.line, col)
}

/// Finds the last character of the whitespace-delimited WORD under the
/// cursor; the column one short of what `cur_end_scan_w` reaches is the
/// result.
#[verifier::rlimit(50)]
#[allow(non_snake_case)]
pub fn find_current_WORD_end(cursor: LinePos, buf: &TextBuffer) -> (r: Option<LinePos>)
    requires
        buf.wf(),
        pos_in(*buf, cursor),
        buf.bytes().len() < usize::MAX / 2,
    ensures
        ({
            let cs = stream_from(*buf, cursor);
            let e = cur_end_scan_w(cs, is_whitespace_char(cs[0]), cursor.col as int);
            &&& (e == 0 ==> r is None)
            &&& (e > 0 && e - 1 <= buf.line_view(cursor.line as int).len() ==> (r matches Some(q)
                && q.line == cursor.line && q.col == e - 1))
            &&& (e > 0 && e - 1 > buf.line_view(cursor.line as int).len() ==> r is None)
        }),
{
    proof {
        buf.lemma_line_valid(cursor.line as int);
        crate::utf8_walk::lemma_decode_len_le(buf.line_bytes(cursor.line as int));
    }
    let total = buf.byte_len();
    let mut iter = buf.utf8_iter(cursor);
    let ghost cs0 = iter.remaining();
    let ghost ws0 = is_whitespace_char(cs0[0]);
    let ghost goal = cur_end_scan_w(cs0, ws0, cursor.col as int);
    let mut col: usize = cursor.col;
    let mut done = false;
    let mut w0 = false;
    let first = iter.next();
    match first {
        None => {
            done = true;
            proof {
                assert(cs0.len() == 0);
            }
        },
        Some(c) => {
            w0 = is_whitespace(c);
            proof {
                assert(w0 == ws0);
            }
            if c == '\r' || c == '\n' {
                done = true;
                proof {
                    assert(cur_end_scan_w(cs0, ws0, cursor.col as int) == cursor.col);
                }
            } else {
                proof {
                    assert(is_whitespace_char(c) == ws0);
                    assert(cursor.col < usize::MAX) by {
                        assert(cursor.col <= buf.line_view(cursor.line as int).len());
                        assert(buf.line_view(cursor.line as int).len() <= buf.line_bytes(
                            cursor.line as int,
                        ).len());
                    }
                    assert(cur_end_scan_w(cs0, ws0, cursor.col as int) == cur_end_scan_w(
                        cs0.drop_first(),
                        ws0,
                        cursor.col + 1,
                    ));
                }
                col = col + 1;
            }
        },
    }
    while !done
        invariant
            iter.wf(),
            cs0.len() > 0 ==> w0 == ws0,
            goal == cur_end_scan_w(cs0, ws0, cursor.col as int),
            cursor.col + cs0.len() < usize::MAX,
            !done ==> col <= cursor.col + (cs0.len() - iter.remaining().len()),
            !done ==> iter.remaining().len() <= cs0.len(),
            !done ==> goal == cur_end_scan_w(iter.remaining(), ws0, col as int),
            done ==> goal == col,
        decreases iter.remaining().len() + if done {
            0int
        } else {
            1int
        },
    {
        let ghost pre_rem = iter.remaining();
        let step = iter.next();
        match step {
            None => {
                proof {
                    assert(pre_rem.len() == 0);
                    assert(cur_end_scan_w(pre_rem, ws0, col as int) == col);
                }
                done = true;
            },
            Some(ch) => {
                let ghost oc = col as int;
                proof {
                    assert(ch == pre_rem[0]);
                    assert(pre_rem.len() > 0);
                }
                if ch == '\r' || ch == '\n' {
                    done = true;
                    proof {
                        assert(cur_end_scan_w(pre_rem, ws0, oc) == oc);
                    }
                } else if is_whitespace(ch) != w0 {
                    done = true;
                    proof {
                        assert(cur_end_scan_w(pre_rem, ws0, oc) == oc);
                    }
                } else {
                    proof {
                        assert(cur_end_scan_w(pre_rem, ws0, oc) == cur_end_scan_w(
                            pre_rem.drop_first(),
                            ws0,
                            oc + 1,
                        ));
                        assert(iter.remaining() == pre_rem.drop_first());
                    }
                    col = col + 1;
                }
            },
        }
    }
    if col == 0 {
        return None;
    }
    check_pos(buf, cursor.line, col - 1)
}

/// Moves to the start of the previous word: steps one character back, then
/// scans backward across line ends; the result is exactly what
/// `prev_word_result` computes on the characters before the step-back
/// position, bounds-checked at the boundary.
#[verifier::rlimit(100)]
#[verifier::spinoff_prover]
pub fn find_previous_word_start(cursor: LinePos, buf: &TextBuffer) -> (r: Option<LinePos>)
    requires
        buf.wf(),
        pos_in(*buf, cursor),
        buf.bytes().len() < usize::MAX / 2,
    ensures
        cursor.line == 0 && cursor.col == 0 ==> r is None,
        !(cursor.line == 0 && cursor.col == 0) ==> ({
            let line0: int = if cursor.col > 0 {
                cursor.line as int
            } else {
                cursor.line - 1
            };
            let col0: int = if cursor.col > 0 {
                cursor.col - 1
            } else {
                buf.line_view(cursor.line - 1).len() as int
            };
            let cs = stream_before(*buf, LinePos { line: line0 as usize, col: col0 as usize });
            let rc = prev_word_result(*buf, cs, line0, col0);
            &&& (rc.0 < buf.line_count() && rc.1 <= buf.line_view(rc.0).len() ==> (
            r matches Some(q) && q.line == rc.0 && q.col == rc.1))
            &&& (!(rc.0 < buf.line_count() && rc.1 <= buf.line_view(rc.0).len()) ==> r is None)
        }),
{
    proof {
        buf.lemma_line_valid(cursor.line as int);
        crate::utf8_walk::lemma_decode_len_le(buf.raw_line_bytes(cursor.line as int));
    }
    let total = buf.byte_len();
    let mut line: usize = cursor.line;
    let mut col: usize = cursor.col;
    if col > 0 {
        col = col - 1;
        proof {
            buf.lemma_raw_view(line as int);
        }
    } else {
        if line == 0 {
            return None;
        }
        let pl = buf.line_len(cursor.line - 1);
        line = line - 1;
        col = pl;
        proof {
            buf.lemma_line_valid(line as int);
            buf.lemma_raw_view(line as int);
            crate::utf8_walk::lemma_decode_len_le(buf.raw_line_bytes(line as int));
        }
    }
    let start = LinePos { line, col };
    let mut iter = buf.utf8_rev_iter(start);
    let ghost cs0 = iter.remaining();
    let ghost goal = prev_word_result(*buf, cs0, line as int, col as int);
    let first = iter.next();
    let c1 = first.unwrap();
    let mut lookl = false;
    let mut looks = false;
    let mut found = false;
    if is_whitespace(c1) {
        lookl = true;
        looks = true;
    } else if is_letter(c1) {
        found = true;
        lookl = true;
    } else {
        found = true;
        looks = true;
    }
    proof {
        assert(c1 == cs0.last());
        assert(goal == prev_word_scan(
            *buf,
            cs0.drop_last(),
            lookl,
            looks,
            found,
            line as int,
            col as int,
        ));
        assert(iter.remaining() == cs0.drop_last());
    }
    let mut done = false;
    while !done
        invariant
            iter.wf(),
            buf.wf(),
            line < buf.line_count(),
            !done ==> goal == prev_word_scan(
                *buf,
                iter.remaining(),
                lookl,
                looks,
                found,
                line as int,
                col as int,
            ),
            done ==> goal == (line as int, col as int),
        decreases iter.remaining().len() + if done {
            0int
        } else {
            1int
        },
    {
        let ghost pre_rem = iter.remaining();
        let ghost ol = lookl;
        let ghost os = looks;
        let ghost of = found;
        let ghost oline = line as int;
        let ghost ocol = col as int;
        let step = iter.next();
        match step {
            None => {
                proof {
                    assert(pre_rem.len() == 0);
                    assert(prev_word_scan(*buf, pre_rem, ol, os, of, oline, ocol) == (
                    oline,
                    ocol,
                    ));
                }
                done = true;
            },
            Some(ch) => {
                proof {
                    assert(ch == pre_rem.last());
                    assert(pre_rem.len() > 0);
                }
                if ch == '\n' {
                    if found {
                        done = true;
                        proof {
                            assert(prev_word_scan(*buf, pre_rem, ol, os, of, oline, ocol) == (
                            oline,
                            ocol,
                            ));
                        }
                    } else if line == 0 {
                        done = true;
                        proof {
                            assert(prev_word_scan(*buf, pre_rem, ol, os, of, oline, ocol) == (
                            oline,
                            ocol,
                            ));
                        }
                    } else {
                        let pl2 = buf.line_len(line - 1);
                        line = line - 1;
                        col = pl2;
                        proof {
                            assert(prev_word_scan(*buf, pre_rem, ol, os, of, oline, ocol)
                                == prev_word_scan(
                                *buf,
                                pre_rem.drop_last(),
                                ol,
                                os,
                                of,
                                oline - 1,
                                buf.line_view(oline - 1).len() as int,
                            ));
                            assert(iter.remaining() == pre_rem.drop_last());
                        }
                    }
                } else if ch == '\r' {
                    proof {
                        assert(prev_word_scan(*buf, pre_rem, ol, os, of, oline, ocol)
                            == prev_word_scan(
                            *buf,
                            pre_rem.drop_last(),
                            ol,
                            os,
                            of,
                            oline,
                            ocol,
                        ));
                        assert(iter.remaining() == pre_rem.drop_last());
                    }
                } else {
                    if !found && lookl && is_letter(ch) {
                        found = true;
                        looks = false;
                    }
                    if !found && looks && is_special(ch) {
                        found = true;
                        lookl = false;
                    }
                    proof {
                        assert(lookl == word_flags(ol, os, of, ch).0);
                        assert(looks == word_flags(ol, os, of, ch).1);
                        assert(found == word_flags(ol, os, of, ch).2);
                    }
                    if found && lookl && !is_letter(ch) {
                        done = true;
                        proof {
                            assert(prev_word_scan(*buf, pre_rem, ol, os, of, oline, ocol) == (
                            oline,
                            ocol,
                            ));
                        }
                    } else if found && looks && !is_special(ch) {
                        done = true;
                        proof {
                            assert(prev_word_scan(*buf, pre_rem, ol, os, of, oline, ocol) == (
                            oline,
                            ocol,
                            ));
                        }
                    } else if col == 0 {
                        done = true;
                        proof {
                            assert(prev_word_scan(*buf, pre_rem, ol, os, of, oline, ocol) == (
                            oline,
                            0int,
                            ));
                        }
                    } else {
                        col = col - 1;
                        proof {
                            assert(prev_word_scan(*buf, pre_rem, ol, os, of, oline, ocol)
                                == prev_word_scan(
                                *buf,
                                pre_rem.drop_last(),
                                lookl,
                                looks,
                                found,
                                oline,
                                ocol - 1,
                            ));
                            assert(iter.remaining() == pre_rem.drop_last());
                        }
                    }
                }
            },
        }
    }
    check_pos(buf, line, col)
}

/// Moves to the end of the next word: steps one character forward, then
/// scans forward across line ends; the result is exactly what
/// `next_end_result` computes on the characters from the step-forward
/// position, bounds-checked at the boundary.
#[verifier::rlimit(100)]
#[verifier::spinoff_prover]
pub fn find_next_word_end(cursor: LinePos, buf: &TextBuffer) -> (r: Option<LinePos>)
    requires
        buf.wf(),
        pos_in(*buf, cursor),
        buf.bytes().len() < usize::MAX / 2,
    ensures
        ({
            let ll = buf.line_view(cursor.line as int).len();
            let stepped = ll > 0 && cursor.col < ll - 1;
            &&& (!stepped && cursor.line + 1 >= buf.line_count() ==> r is None)
            &&& (stepped || cursor.line + 1 < buf.line_count() ==> ({
                let line0: int = if stepped {
                    cursor.line as int
                } else {
                    cursor.line + 1
                };
                let col0: int = if stepped {
                    cursor.col + 1
                } else {
                    0
                };
                let cs = stream_from(
                    *buf,
                    LinePos { line: line0 as usize, col: col0 as usize },
                );
                match next_end_result(cs, line0, col0) {
                    None => r is None,
                    Some(rc) => {
                        &&& (rc.0 < buf.line_count() && 0 <= rc.1 <= buf.line_view(
                            rc.0,
                        ).len() ==> (r matches Some(q) && q.line == rc.0 && q.col == rc.1))
                        &&& (!(rc.0 < buf.line_count() && 0 <= rc.1 <= buf.line_view(
                            rc.0,
                        ).len()) ==> r is None)
                    },
                }
            }))
        }),
{
    proof {
        buf.lemma_line_valid(cursor.line as int);
        crate::utf8_walk::lemma_decode_len_le(buf.line_bytes(cursor.line as int));
        buf.lemma_line_count_bound();
    }
    let total_b = buf.byte_len();
    let mut line: usize = cursor.line;
    let mut col: usize = cursor.col;
    let line_len = buf.line_len(line);
    let total = buf.total_lines();
    if line_len > 0 && col < line_len - 1 {
        col = col + 1;
    } else {
        if line + 1 >= total {
            return None;
        }
        line = line + 1;
        col = 0;
    }
    let start = LinePos { line, col };
    let ghost line0 = line as int;
    let ghost col0 = col as int;
    let mut iter = buf.utf8_iter(start);
    let ghost cs0 = iter.remaining();
    let ghost goal = next_end_result(cs0, line0, col0);
    let first = iter.next();
    if first.is_none() {
        proof {
            assert(cs0.len() == 0);
        }
        return None;
    }
    let c1 = first.unwrap();
    let mut lookl = false;
    let mut looks = false;
    let mut found = false;
    if is_whitespace(c1) {
        lookl = true;
        looks = true;
    } else if is_letter(c1) {
        found = true;
        lookl = true;
    } else {
        found = true;
        looks = true;
    }
    if c1 == '\n' {
        line = line + 1;
        col = 0;
    }
    proof {
        assert(c1 == cs0[0]);
        assert(goal == Some(
            next_end_scan(cs0.drop_first(), lookl, looks, found, line as int, col as int),
        ));
        assert(iter.remaining() == cs0.drop_first());
        buf.lemma_line_valid(line0);
        crate::utf8_walk::lemma_decode_len_le(buf.line_bytes(line0));
        assert(col0 <= buf.line_view(line0).len() <= buf.line_bytes(line0).len());
    }
    let mut done = false;
    while !done
        invariant
            iter.wf(),
            buf.wf(),
            cs0.len() <= buf.bytes().len(),
            buf.bytes().len() < usize::MAX / 2,
            line0 < buf.line_count(),
            buf.line_count() <= buf.bytes().len() + 1,
            col0 + cs0.len() < usize::MAX,
            iter.remaining().len() <= cs0.len(),
            line <= line0 + 1 + (cs0.len() - iter.remaining().len()),
            col <= col0 + (cs0.len() - iter.remaining().len()),
            !done ==> goal == Some(
                next_end_scan(
                    iter.remaining(),
                    lookl,
                    looks,
                    found,
                    line as int,
                    col as int,
                ),
            ),
            done ==> goal == Some((line as int, col as int)),
        decreases iter.remaining().len() + if done {
            0int
        } else {
            1int
        },
    {
        let ghost pre_rem = iter.remaining();
        let ghost ol = lookl;
        let ghost os = looks;
        let ghost of = found;
        let ghost oline = line as int;
        let ghost ocol = col as int;
        let step = iter.next();
        match step {
            None => {
                proof {
                    assert(pre_rem.len() == 0);
                    assert(next_end_scan(pre_rem, ol, os, of, oline, ocol) == (oline, ocol));
                }
                done = true;
            },
            Some(ch) => {
                proof {
                    assert(ch == pre_rem[0]);
                    assert(pre_rem.len() > 0);
                }
                if ch == '\n' {
                    if found {
                        done = true;
                        proof {
                            assert(next_end_scan(pre_rem, ol, os, of, oline, ocol) == (
                            oline,
                            ocol,
                            ));
                        }
                    } else {
                        line = line + 1;
                        col = 0;
                        proof {
                            assert(next_end_scan(pre_rem, ol, os, of, oline, ocol)
                                == next_end_scan(
                                pre_rem.drop_first(),
                                ol,
                                os,
                                of,
                                oline + 1,
                                0,
                            ));
                            assert(iter.remaining() == pre_rem.drop_first());
                        }
                    }
                } else if ch == '\r' {
                    proof {
                        assert(next_end_scan(pre_rem, ol, os, of, oline, ocol) == next_end_scan(
                            pre_rem.drop_first(),
                            ol,
                            os,
                            of,
                            oline,
                            ocol,
                        ));
                        assert(iter.remaining() == pre_rem.drop_first());
                    }
                } else {
                    if !found && lookl && is_letter(ch) {
                        found = true;
                        looks = false;
                    }
                    if !found && looks && is_special(ch) {
                        found = true;
                        lookl = false;
                    }
                    proof {
                        assert(lookl == word_flags(ol, os, of, ch).0);
                        assert(looks == word_flags(ol, os, of, ch).1);
                        assert(found == word_flags(ol, os, of, ch).2);
                    }
                    if found && lookl && !is_letter(ch) {
                        done = true;
                        proof {
                            assert(next_end_scan(pre_rem, ol, os, of, oline, ocol) == (
                            oline,
                            ocol,
                            ));
                        }
                    } else if found && looks && !is_special(ch) {
                        done = true;
                        proof {
                            assert(next_end_scan(pre_rem, ol, os, of, oline, ocol) == (
                            oline,
                            ocol,
                            ));
                        }
                    } else {
                        col = col + 1;
                        proof {
                            assert(next_end_scan(pre_rem, ol, os, of, oline, ocol)
                                == next_end_scan(
                                pre_rem.drop_first(),
                                lookl,
                                looks,
                                found,
                                oline,
                                ocol + 1,
                            ));
                            assert(iter.remaining() == pre_rem.drop_first());
                        }
                    }
                }
            },
        }
    }
    check_pos(buf, line, col)
}

} // verus!
