//! The command-bar mini-language: a sorted command table matched by unique
//! prefix, and the actions a dispatched command asks the session to perform.

use vstd::prelude::*;

verus! {

use vstd::utf8::{encode_utf8, is_ascii_chars};

/// A command the bar can name.
#[derive(PartialEq, Eq, Structural, Clone, Copy, Debug)]
pub enum BarCommand {
    Edit,
    Quit,
    Write,
}

/// What a dispatched command asks the surrounding session to do; opening a
/// file and writing one are performed outside the core, which only hands the
/// path or the bytes over.
pub enum CommandBarAction {
    NoOp,
    Quit,
    Write,
    NewBuffer(String),
    SwitchToBuffer(usize),
}

/// True when `p` is a prefix of `w`.
pub open spec fn is_prefix(p: Seq<char>, w: Seq<char>) -> bool {
    p.len() <= w.len() && p == w.take(p.len() as int)
}

/// The command table: a name selects the command whose sorted-table entry it
/// is a prefix of (`e`, `edit`, `q`, `quit`, `w`, `write`).
pub open spec fn cmd_of(s: Seq<char>) -> Option<BarCommand> {
    if is_prefix(s, seq!['e', 'd', 'i', 't']) {
        Some(BarCommand::Edit)
    } else if is_prefix(s, seq!['q', 'u', 'i', 't']) {
        Some(BarCommand::Quit)
    } else if is_prefix(s, seq!['w', 'r', 'i', 't', 'e']) {
        Some(BarCommand::Write)
    } else {
        None
    }
}

/// Whether `p`'s bytes are a prefix of `w`'s bytes.
fn bytes_prefix(p: &[u8], w: &[u8]) -> (r: bool)
    ensures
        r == (p@.len() <= w@.len() && p@ == w@.take(p@.len() as int)),
{
    let n = p.len();
    if n > w.len() {
        proof {
            assert(!(p@.len() <= w@.len()));
        }
        return false;
    }
    let mut i: usize = 0;
    while i < n
        invariant
            n == p@.len() <= w@.len(),
            i <= n,
            forall|j: int| 0 <= j < i ==> p@[j] == w@[j],
        decreases n - i,
    {
        if p[i] != w[i] {
            proof {
                assert(p@[i as int] != w@.take(p@.len() as int)[i as int]);
            }
            return false;
        }
        i = i + 1;
    }
    proof {
        assert(p@ =~= w@.take(p@.len() as int));
    }
    true
}

/// Matches command-bar input against the table by unique prefix.
pub fn match_cmd(input: &str) -> (r: Option<BarCommand>)
    ensures
        r == cmd_of(input@),
{
    proof {
        reveal_strlit("edit");
        reveal_strlit("quit");
        reveal_strlit("write");
        lemma_ascii_prefix(input@, "edit"@);
        lemma_ascii_prefix(input@, "quit"@);
        lemma_ascii_prefix(input@, "write"@);
        assert("edit"@ =~= seq!['e', 'd', 'i', 't']);
        assert("quit"@ =~= seq!['q', 'u', 'i', 't']);
        assert("write"@ =~= seq!['w', 'r', 'i', 't', 'e']);
    }
    let b = input.as_bytes();
    if bytes_prefix(b, "edit".as_bytes()) {
        Some(BarCommand::Edit)
    } else if bytes_prefix(b, "quit".as_bytes()) {
        Some(BarCommand::Quit)
    } else if bytes_prefix(b, "write".as_bytes()) {
        Some(BarCommand::Write)
    } else {
        None
    }
}

/// A character sequence whose UTF-8 encoding uses only bytes below 0x80 is
/// ASCII: multi-byte encodings always start with a high leading byte.
proof fn lemma_all_bytes_ascii(s: Seq<char>)
    requires
        forall|j: int| 0 <= j < encode_utf8(s).len() ==> #[trigger] encode_utf8(s)[j] < 0x80,
    ensures
        is_ascii_chars(s),
    decreases s.len(),
{
    if s.len() > 0 {
        let c = s[0] as u32;
        vstd::utf8::char_is_scalar(s[0]);
        let e0 = vstd::utf8::encode_scalar(c);
        assert(encode_utf8(s) == e0 + encode_utf8(s.drop_first()));
        assert(e0[0] == encode_utf8(s)[0]);
        assert(e0[0] < 0x80);
        assert(vstd::utf8::has_width_1_encoding(c)) by {
            if vstd::utf8::has_width_2_encoding(c) {
                let y = (c >> 6) & 0x1f;
                assert((0xC0 | y as u8) >= 0x80) by (bit_vector);
            } else if vstd::utf8::has_width_3_encoding(c) {
                let y = (c >> 12) & 0x0f;
                assert((0xE0 | y as u8) >= 0x80) by (bit_vector);
            } else if !vstd::utf8::has_width_1_encoding(c) {
                let y = (c >> 18) & 0x7;
                assert((0xF0 | y as u8) >= 0x80) by (bit_vector);
            }
        }
        vstd::utf8::char_u32_cast(s[0], c);
        assert('\u{0}' <= s[0] <= '\u{7f}');
        assert forall|j: int|
            0 <= j < encode_utf8(s.drop_first()).len() implies #[trigger] encode_utf8(
            s.drop_first(),
        )[j] < 0x80 by {
            assert(encode_utf8(s.drop_first())[j] == encode_utf8(s)[j + e0.len()]);
        }
        lemma_all_bytes_ascii(s.drop_first());
        assert forall|i: int| 0 <= i < s.len() implies '\u{0}' <= #[trigger] s[i]
            <= '\u{7f}' by {
            if i > 0 {
                assert(s[i] == s.drop_first()[i - 1]);
            }
        }
    }
}

/// For an ASCII word, byte-level prefixes and character-level prefixes
/// coincide.
proof fn lemma_ascii_prefix(s: Seq<char>, w: Seq<char>)
    requires
        is_ascii_chars(w),
    ensures
        (encode_utf8(s).len() <= encode_utf8(w).len() && encode_utf8(s) == encode_utf8(w).take(
            encode_utf8(s).len() as int,
        )) == is_prefix(s, w),
{
    vstd::utf8::is_ascii_chars_encode_utf8(w);
    vstd::utf8::is_ascii_chars_nat_bound(w);
    let es = encode_utf8(s);
    let ew = encode_utf8(w);
    assert forall|j: int| 0 <= j < ew.len() implies #[trigger] ew[j] < 0x80 by {
        assert(ew[j] == w[j] as u8);
        assert((w[j] as nat) < 128);
        vstd::utf8::char_is_scalar(w[j]);
    }
    if es.len() <= ew.len() && es == ew.take(es.len() as int) {
        assert forall|j: int| 0 <= j < es.len() implies #[trigger] es[j] < 0x80 by {
            assert(es[j] == ew.take(es.len() as int)[j]);
        }
        lemma_all_bytes_ascii(s);
        vstd::utf8::is_ascii_chars_encode_utf8(s);
        vstd::utf8::is_ascii_chars_nat_bound(s);
        assert(s.len() == es.len() <= ew.len() == w.len());
        assert forall|i: int| 0 <= i < s.len() implies s[i] == #[trigger] w.take(
            s.len() as int,
        )[i] by {
            assert(s[i] as u8 == es[i]);
            assert(w[i] as u8 == ew[i]);
            assert(es[i] == ew.take(es.len() as int)[i]);
            assert((s[i] as nat) < 128 && (w[i] as nat) < 128);
            vstd::utf8::char_is_scalar(s[i]);
            vstd::utf8::char_is_scalar(w[i]);
            assert(s[i] as u32 == w[i] as u32) by {
                let a = s[i] as u32;
                let b = w[i] as u32;
                assert(a < 128 && b < 128 && a as u8 == b as u8 ==> a == b) by (bit_vector);
            }
            vstd::utf8::char_u32_cast(s[i], s[i] as u32);
            vstd::utf8::char_u32_cast(w[i], w[i] as u32);
        }
        assert(s =~= w.take(s.len() as int));
        assert(is_prefix(s, w));
    }
    if is_prefix(s, w) {
        assert(is_ascii_chars(s)) by {
            assert forall|i: int| 0 <= i < s.len() implies '\u{0}' <= #[trigger] s[i]
                <= '\u{7f}' by {
                assert(s[i] == w.take(s.len() as int)[i]);
                assert(w.take(s.len() as int)[i] == w[i]);
            }
        }
        vstd::utf8::is_ascii_chars_encode_utf8(s);
        assert(es =~= ew.take(es.len() as int)) by {
            assert forall|i: int| 0 <= i < es.len() implies es[i] == #[trigger] ew.take(
                es.len() as int,
            )[i] by {
                assert(s[i] == w.take(s.len() as int)[i]);
                assert(w.take(s.len() as int)[i] == w[i]);
                assert(es[i] == s[i] as u8);
                assert(ew[i] == w[i] as u8);
            }
        }
        assert(es.len() <= ew.len() && es == ew.take(es.len() as int));
    }
}

} // verus!
