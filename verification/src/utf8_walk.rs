//! Positions inside a UTF-8 byte sequence: the byte offset of the k-th
//! character, and how decoding splits around such offsets.  Built on the
//! UTF-8 specification in vstd.

use vstd::prelude::*;

verus! {

use vstd::utf8::{
    valid_utf8, decode_utf8, valid_first_scalar, decode_first_scalar, length_of_first_scalar,
    length_of_last_scalar, pop_first_scalar, is_char_boundary, is_leading_byte_width_1,
    is_leading_byte_width_2, is_leading_byte_width_3, is_leading_byte_width_4,
    is_continuation_byte, valid_utf8_split, decode_utf8_split, is_char_boundary_start_end_of_seq,
    is_char_boundary_iff_not_is_continuation_byte, valid_utf8_concat,
};

/// The number of bytes a scalar's encoding occupies, read off its leading byte.
pub open spec fn spec_scalar_len(b0: u8) -> int {
    if is_leading_byte_width_1(b0) {
        1
    } else if is_leading_byte_width_2(b0) {
        2
    } else if is_leading_byte_width_3(b0) {
        3
    } else {
        4
    }
}

/// The byte offset where the `k`-th character of `b` starts.
pub open spec fn char_off(b: Seq<u8>, k: int) -> int
    decreases k,
{
    if k <= 0 {
        0
    } else {
        char_off(b, k - 1) + length_of_first_scalar(
            b.subrange(char_off(b, k - 1), b.len() as int),
        )
    }
}

/// Reads the encoded length of the scalar starting with leading byte `b0`.
pub fn scalar_len(b0: u8) -> (r: usize)
    ensures
        r == spec_scalar_len(b0),
{
    if b0 < 0x80 {
        1
    } else if 0xc0 <= b0 && b0 <= 0xdf {
        2
    } else if 0xe0 <= b0 && b0 <= 0xef {
        3
    } else {
        4
    }
}

/// On a well-formed first scalar, the spec length agrees with the length read
/// from the leading byte.
pub proof fn lemma_scalar_len_first(b: Seq<u8>)
    requires
        valid_first_scalar(b),
    ensures
        length_of_first_scalar(b) == spec_scalar_len(b[0]),
{
}

/// Decoding a sequence that holds exactly one scalar yields one character.
pub proof fn lemma_decode_single(b: Seq<u8>)
    requires
        valid_utf8(b),
        b.len() > 0,
        valid_first_scalar(b),
        length_of_first_scalar(b) == b.len(),
    ensures
        decode_utf8(b) == seq![decode_first_scalar(b) as char],
{
    assert(pop_first_scalar(b) =~= Seq::<u8>::empty());
    assert(decode_utf8(pop_first_scalar(b)) =~= Seq::<char>::empty());
    assert(decode_utf8(b) =~= seq![decode_first_scalar(b) as char]);
}

/// The properties of `char_off` that everything else rests on: it is a
/// character boundary, decoding splits there into the first `k` characters
/// and the rest, and one more character advances it by that scalar's length.
pub proof fn lemma_char_off(b: Seq<u8>, k: int)
    requires
        valid_utf8(b),
        0 <= k <= decode_utf8(b).len(),
    ensures
        0 <= char_off(b, k) <= b.len(),
        is_char_boundary(b, char_off(b, k)),
        valid_utf8(b.subrange(0, char_off(b, k))),
        valid_utf8(b.subrange(char_off(b, k), b.len() as int)),
        decode_utf8(b.subrange(0, char_off(b, k))) == decode_utf8(b).take(k),
        decode_utf8(b.subrange(char_off(b, k), b.len() as int)) == decode_utf8(b).skip(k),
        (k == decode_utf8(b).len()) <==> (char_off(b, k) == b.len()),
        k < decode_utf8(b).len() ==> valid_first_scalar(
            b.subrange(char_off(b, k), b.len() as int),
        ) && decode_utf8(b)[k] == decode_first_scalar(
            b.subrange(char_off(b, k), b.len() as int),
        ) as char && char_off(b, k + 1) == char_off(b, k) + length_of_first_scalar(
            b.subrange(char_off(b, k), b.len() as int),
        ),
    decreases k,
{
    if k == 0 {
        assert(b.subrange(0, 0) =~= Seq::<u8>::empty());
        assert(decode_utf8(b.subrange(0, 0)) =~= decode_utf8(b).take(0));
        assert(b.subrange(0, b.len() as int) =~= b);
        assert(decode_utf8(b).skip(0) =~= decode_utf8(b));
        is_char_boundary_start_end_of_seq(b);
        if 0 < decode_utf8(b).len() {
            assert(b.len() > 0);
            assert(valid_first_scalar(b));
            assert(decode_utf8(b)[0] == decode_first_scalar(b) as char);
            assert(b.subrange(char_off(b, 0), b.len() as int) =~= b);
            assert(char_off(b, 1) == length_of_first_scalar(b));
        }
    } else {
        lemma_char_off(b, k - 1);
        let o = char_off(b, k - 1);
        let suf = b.subrange(o, b.len() as int);
        // decode(suf) == decode(b).skip(k-1), which is non-empty since k <= len
        assert(decode_utf8(suf).len() == decode_utf8(b).len() - (k - 1));
        assert(suf.len() > 0) by {
            if suf.len() == 0 {
                assert(decode_utf8(suf) =~= Seq::<char>::empty());
            }
        }
        let l = length_of_first_scalar(suf);
        let o2 = o + l;
        assert(char_off(b, k) == o2);
        assert(valid_first_scalar(suf));
        assert(1 <= l <= suf.len());
        assert(0 <= o2 <= b.len());
        // the rest of b after o2 is the popped suffix
        assert(pop_first_scalar(suf) =~= b.subrange(o2, b.len() as int));
        assert(valid_utf8(b.subrange(o2, b.len() as int)));
        // boundary at o2
        if o2 < b.len() {
            let suf2 = b.subrange(o2, b.len() as int);
            if suf2.len() > 0 {
                assert(valid_first_scalar(suf2));
                assert(!is_continuation_byte(suf2[0]));
                assert(b[o2] == suf2[0]);
                is_char_boundary_iff_not_is_continuation_byte(b, o2);
            }
        } else {
            is_char_boundary_start_end_of_seq(b);
        }
        assert(is_char_boundary(b, o2));
        valid_utf8_split(b, o2);
        decode_utf8_split(b, o2);
        // decode of the suffix after o2
        assert(decode_utf8(suf) == seq![decode_first_scalar(suf) as char] + decode_utf8(
            pop_first_scalar(suf),
        ));
        assert(decode_utf8(b.subrange(o2, b.len() as int)) =~= decode_utf8(suf).skip(1));
        assert(decode_utf8(suf) == decode_utf8(b).skip(k - 1));
        assert(decode_utf8(b.subrange(o2, b.len() as int)) =~= decode_utf8(b).skip(k));
        // decode of the prefix up to o2
        assert(decode_utf8(b) =~= decode_utf8(b.subrange(0, o2)) + decode_utf8(
            b.subrange(o2, b.len() as int),
        ));
        assert(decode_utf8(b.subrange(0, o2)).len() == k);
        assert(decode_utf8(b.subrange(0, o2)) =~= decode_utf8(b).take(k));
        // end-of-sequence criterion
        if k == decode_utf8(b).len() {
            assert(decode_utf8(b.subrange(o2, b.len() as int)).len() == 0);
            if o2 < b.len() {
                assert(valid_first_scalar(b.subrange(o2, b.len() as int)));
                assert(decode_utf8(b.subrange(o2, b.len() as int)).len() > 0);
            }
        } else {
            assert(decode_utf8(b.subrange(o2, b.len() as int)).len() > 0);
            assert(o2 < b.len());
            let suf2 = b.subrange(o2, b.len() as int);
            assert(valid_first_scalar(suf2));
            assert(decode_utf8(b)[k] == decode_utf8(suf2)[0]);
            assert(decode_utf8(suf2)[0] == decode_first_scalar(suf2) as char);
            assert(char_off(b, k + 1) == o2 + length_of_first_scalar(suf2));
        }
    }
}

/// A decoded character sequence is never longer than its encoding.
pub proof fn lemma_decode_len_le(b: Seq<u8>)
    requires
        valid_utf8(b),
    ensures
        decode_utf8(b).len() <= b.len(),
    decreases b.len(),
{
    if b.len() > 0 {
        assert(pop_first_scalar(b).len() < b.len());
        lemma_decode_len_le(pop_first_scalar(b));
    }
}

/// Decoding distributes over concatenation of valid sequences, and the seam
/// is a character boundary.
pub proof fn lemma_decode_concat(x: Seq<u8>, y: Seq<u8>)
    requires
        valid_utf8(x),
        valid_utf8(y),
    ensures
        valid_utf8(x + y),
        is_char_boundary(x + y, x.len() as int),
        decode_utf8(x + y) == decode_utf8(x) + decode_utf8(y),
    decreases x.len(),
{
    valid_utf8_concat(x, y);
    if x.len() == 0 {
        assert(x + y =~= y);
        assert(decode_utf8(x) =~= Seq::<char>::empty());
        assert(decode_utf8(x + y) =~= decode_utf8(x) + decode_utf8(y));
        is_char_boundary_start_end_of_seq(x + y);
    } else {
        let l = length_of_first_scalar(x);
        lemma_first_scalar_agree(x, x + y);
        assert(pop_first_scalar(x + y) =~= pop_first_scalar(x) + y);
        lemma_decode_concat(pop_first_scalar(x), y);
        assert(decode_utf8(x + y) == seq![decode_first_scalar(x + y) as char] + decode_utf8(
            pop_first_scalar(x + y),
        ));
        assert(decode_utf8(x + y) =~= decode_utf8(x) + decode_utf8(y));
    }
}

/// Two byte sequences that agree on the first scalar's bytes decode that
/// scalar identically.
pub proof fn lemma_first_scalar_agree(a: Seq<u8>, c: Seq<u8>)
    requires
        valid_first_scalar(a),
        c.len() >= length_of_first_scalar(a),
        forall|j: int| 0 <= j < length_of_first_scalar(a) ==> a[j] == #[trigger] c[j],
    ensures
        valid_first_scalar(c),
        length_of_first_scalar(c) == length_of_first_scalar(a),
        decode_first_scalar(c) == decode_first_scalar(a),
{
    assert(c[0] == a[0]);
    if is_leading_byte_width_1(a[0]) {
    } else if is_leading_byte_width_2(a[0]) {
        assert(c[1] == a[1]);
    } else if is_leading_byte_width_3(a[0]) {
        assert(c[1] == a[1]);
        assert(c[2] == a[2]);
    } else {
        assert(c[1] == a[1]);
        assert(c[2] == a[2]);
        assert(c[3] == a[3]);
    }
}

/// Walking one whole scalar forward from a character boundary lands on a
/// character boundary again.
pub proof fn lemma_boundary_step(b: Seq<u8>, p: int)
    requires
        valid_utf8(b),
        is_char_boundary(b, p),
        0 <= p < b.len(),
    ensures
        valid_first_scalar(b.subrange(p, b.len() as int)),
        ({
            let l = length_of_first_scalar(b.subrange(p, b.len() as int));
            &&& 1 <= l <= b.len() - p
            &&& is_char_boundary(b, p + l)
        }),
{
    valid_utf8_split(b, p);
    let suf = b.subrange(p, b.len() as int);
    assert(valid_first_scalar(suf));
    let l = length_of_first_scalar(suf);
    assert(1 <= l <= suf.len());
    assert(pop_first_scalar(suf) =~= b.subrange(p + l, b.len() as int));
    assert(valid_utf8(b.subrange(p + l, b.len() as int)));
    if p + l < b.len() {
        let suf2 = b.subrange(p + l, b.len() as int);
        assert(valid_first_scalar(suf2));
        assert(!is_continuation_byte(suf2[0]));
        assert(b[p + l] == suf2[0]);
        is_char_boundary_iff_not_is_continuation_byte(b, p + l);
    } else {
        is_char_boundary_start_end_of_seq(b);
    }
}

/// The byte right after a one-byte scalar (such as a line feed) is a
/// character boundary.
pub proof fn lemma_after_single_byte(b: Seq<u8>, q: int)
    requires
        valid_utf8(b),
        0 <= q < b.len(),
        !is_continuation_byte(b[q]),
        is_leading_byte_width_1(b[q]),
    ensures
        is_char_boundary(b, q),
        is_char_boundary(b, q + 1),
{
    is_char_boundary_iff_not_is_continuation_byte(b, q);
    lemma_boundary_step(b, q);
    let suf = b.subrange(q, b.len() as int);
    assert(suf[0] == b[q]);
    assert(length_of_first_scalar(suf) == 1);
}

/// A subrange cut at a character boundary on the left and at a
/// non-continuation byte (or the end) on the right is itself valid UTF-8.
pub proof fn lemma_mid_subrange_valid(b: Seq<u8>, s: int, e: int)
    requires
        valid_utf8(b),
        is_char_boundary(b, s),
        0 <= s <= e <= b.len(),
        e == b.len() || !is_continuation_byte(b[e]),
    ensures
        is_char_boundary(b, e),
        valid_utf8(b.subrange(s, b.len() as int)),
        valid_utf8(b.subrange(s, e)),
        valid_utf8(b.subrange(0, s)),
        valid_utf8(b.subrange(e, b.len() as int)),
        b.subrange(s, e) == b.subrange(s, b.len() as int).subrange(0, e - s),
        is_char_boundary(b.subrange(s, b.len() as int), e - s),
{
    if e < b.len() {
        is_char_boundary_iff_not_is_continuation_byte(b, e);
    } else {
        is_char_boundary_start_end_of_seq(b);
    }
    valid_utf8_split(b, s);
    let tail = b.subrange(s, b.len() as int);
    if e - s < tail.len() {
        assert(tail[e - s] == b[e]);
        is_char_boundary_iff_not_is_continuation_byte(tail, e - s);
    } else {
        is_char_boundary_start_end_of_seq(tail);
    }
    valid_utf8_split(tail, e - s);
    assert(b.subrange(s, e) =~= tail.subrange(0, e - s));
    valid_utf8_split(b, e);
}

/// The last scalar of a valid UTF-8 sequence: its span starts on a character
/// boundary, decodes as the final character, and dropping it drops exactly
/// that character.
pub proof fn lemma_last_scalar(b: Seq<u8>)
    requires
        valid_utf8(b),
        b.len() > 0,
    ensures
        ({
            let l = length_of_last_scalar(b);
            let st = b.len() - l;
            &&& 1 <= l <= b.len()
            &&& is_char_boundary(b, st)
            &&& valid_first_scalar(b.subrange(st, b.len() as int))
            &&& length_of_first_scalar(b.subrange(st, b.len() as int)) == l
            &&& decode_utf8(b).len() > 0
            &&& decode_utf8(b) == decode_utf8(b.subrange(0, st)) + seq![
                decode_first_scalar(b.subrange(st, b.len() as int)) as char,
            ]
            &&& !is_continuation_byte(b[st])
            &&& (forall|k: int| st < k < b.len() ==> is_continuation_byte(#[trigger] b[k]))
        }),
    decreases b.len(),
{
    let n = b.len() as int;
    let fl = length_of_first_scalar(b);
    let rest = pop_first_scalar(b);
    if rest.len() == 0 {
        // the whole sequence is one scalar
        assert(fl == n);
        assert(forall|k: int| 1 <= k < n ==> is_continuation_byte(#[trigger] b[k]));
        assert(!is_continuation_byte(b[0]));
        assert(length_of_last_scalar(b) == n) by {
            if n >= 2 {
                assert(is_continuation_byte(b[n - 1]));
            }
            if n >= 3 {
                assert(is_continuation_byte(b[n - 2]));
            }
            if n >= 4 {
                assert(is_continuation_byte(b[n - 3]));
            }
        }
        assert(b.subrange(0, 0) =~= Seq::<u8>::empty());
        assert(b.subrange(0, n) =~= b);
        lemma_decode_single(b);
        is_char_boundary_start_end_of_seq(b);
        assert(decode_utf8(b) =~= decode_utf8(b.subrange(0, 0)) + seq![
            decode_first_scalar(b.subrange(0, n)) as char,
        ]);
    } else {
        lemma_last_scalar(rest);
        let l = length_of_last_scalar(rest);
        // the trailing bytes of b and rest agree
        assert(rest.len() == n - fl);
        assert(forall|k: int| 0 <= k < rest.len() ==> rest[k] == b[k + fl]);
        assert(length_of_last_scalar(b) == l) by {
            assert(rest[rest.len() - 1] == b[n - 1]);
            if is_continuation_byte(b[n - 1]) {
                assert(rest.len() >= 2) by {
                    if rest.len() == 1 {
                        assert(valid_first_scalar(rest));
                        assert(!is_continuation_byte(rest[0]));
                    }
                }
                assert(rest[rest.len() - 2] == b[n - 2]);
                if is_continuation_byte(b[n - 2]) {
                    assert(rest.len() >= 3) by {
                        if rest.len() == 2 {
                            assert(!is_continuation_byte(rest[0]));
                            assert(is_continuation_byte(rest[1]));
                            assert(valid_first_scalar(rest));
                            assert(length_of_first_scalar(rest) == 2);
                        }
                    }
                    assert(rest[rest.len() - 3] == b[n - 3]);
                }
            }
        }
        let st = n - l;
        let st_r = rest.len() - l;
        assert(st == st_r + fl);
        assert(is_char_boundary(b, st));
        assert(b.subrange(st, n) =~= rest.subrange(st_r, rest.len() as int));
        // decode of the prefix: the first scalar is shared
        let p = b.subrange(0, st);
        let pr = rest.subrange(0, st_r);
        assert(st >= fl);
        assert(p.len() > 0);
        valid_utf8_split(b, st);
        assert(valid_utf8(p));
        crate::utf8_walk::lemma_first_scalar_agree(b, p);
        assert(valid_first_scalar(p));
        assert(pop_first_scalar(p) =~= pr) by {
            assert(length_of_first_scalar(p) == fl);
        }
        assert(decode_utf8(p) == seq![decode_first_scalar(p) as char] + decode_utf8(pr));
        assert(decode_first_scalar(p) == decode_first_scalar(b));
        assert(decode_utf8(b) == seq![decode_first_scalar(b) as char] + decode_utf8(rest));
        assert(decode_utf8(b) =~= decode_utf8(p) + seq![
            decode_first_scalar(b.subrange(st, n)) as char,
        ]);
        assert(!is_continuation_byte(b[st]));
        assert forall|k: int| st < k < n implies is_continuation_byte(#[trigger] b[k]) by {
            assert(b[k] == rest[k - fl]);
        }
    }
}

/// `char_off` is monotonic in the character index.
pub proof fn lemma_char_off_mono(b: Seq<u8>, k1: int, k2: int)
    requires
        valid_utf8(b),
        0 <= k1 <= k2 <= decode_utf8(b).len(),
    ensures
        char_off(b, k1) <= char_off(b, k2),
    decreases k2 - k1,
{
    if k1 < k2 {
        lemma_char_off(b, k2 - 1);
        lemma_char_off_mono(b, k1, k2 - 1);
    }
}

} // verus!
