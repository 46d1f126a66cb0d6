//! Incremental UTF-8 decoding of a byte stream that arrives in chunks.
//!
//! Bytes are decoded as far as they form whole characters; the bytes of a
//! character that a chunk boundary splits wait for the next chunk. Invalid
//! bytes are replaced as `String::from_utf8_lossy` replaces them: each
//! maximal prefix of a valid encoding that can not be completed, or each
//! single byte that starts none, becomes one U+FFFD. Valid UTF-8 decodes as
//! vstd's `decode_utf8` says, however it is split.

use vstd::prelude::*;
use vstd::utf8::*;
use crate::text::sub_chars;

verus! {

/// The character put in place of a byte that starts no valid encoding.
pub const REPLACEMENT_CHARACTER: char = '\u{FFFD}';

/// The number of bytes of the encoding that the leading byte `b` starts, by
/// vstd's bit patterns (0 where `b` has none).
pub open spec fn utf8_width(b: u8) -> int {
    if is_leading_byte_width_1(b) {
        1
    } else if is_leading_byte_width_2(b) {
        2
    } else if is_leading_byte_width_3(b) {
        3
    } else if is_leading_byte_width_4(b) {
        4
    } else {
        0
    }
}

/// The width of a well-formed encoding that starts with `b`, by the table of
/// the Unicode standard that std's UTF-8 validation follows (0 where no
/// well-formed encoding starts with `b`: U+0080..U+00C1 and U+00F5..U+00FF).
pub open spec fn well_formed_width(b: u8) -> int {
    if b <= 0x7f {
        1
    } else if 0xc2 <= b <= 0xdf {
        2
    } else if 0xe0 <= b <= 0xef {
        3
    } else if 0xf0 <= b <= 0xf4 {
        4
    } else {
        0
    }
}

/// Whether `b1` may follow the leading byte `b0` in a well-formed encoding.
pub open spec fn second_byte_ok(b0: u8, b1: u8) -> bool {
    if b0 == 0xe0 {
        0xa0 <= b1 <= 0xbf
    } else if b0 == 0xed {
        0x80 <= b1 <= 0x9f
    } else if b0 == 0xf0 {
        0x90 <= b1 <= 0xbf
    } else if b0 == 0xf4 {
        0x80 <= b1 <= 0x8f
    } else {
        0x80 <= b1 <= 0xbf
    }
}

/// How many bytes at the front of the non-empty `x` form a prefix of a
/// well-formed encoding, up to its width.
pub open spec fn accepted_len(x: Seq<u8>) -> int {
    let w = well_formed_width(x[0]);
    if w <= 1 {
        w
    } else if x.len() < 2 || !second_byte_ok(x[0], x[1]) {
        1
    } else if w == 2 || x.len() < 3 || !is_continuation_byte(x[2]) {
        2
    } else if w == 3 || x.len() < 4 || !is_continuation_byte(x[3]) {
        3
    } else {
        4
    }
}

/// `x` is the beginning of a multi-byte encoding that more bytes may
/// complete: all its bytes fit a well-formed encoding that needs more.
pub open spec fn incomplete_scalar(x: Seq<u8>) -> bool {
    &&& x.len() > 0
    &&& accepted_len(x) == x.len()
    &&& x.len() < well_formed_width(x[0])
}

/// The number of bytes that one U+FFFD replaces at the front of `x`, which
/// starts no valid encoding and can not be completed: the maximal prefix of
/// a well-formed encoding, or the first byte where there is none.
pub open spec fn invalid_len(x: Seq<u8>) -> int {
    if accepted_len(x) == 0 {
        1
    } else {
        accepted_len(x)
    }
}

/// Decodes `bytes` from the front: each valid encoding gives its character,
/// each invalid part gives one U+FFFD (as `String::from_utf8_lossy`
/// replaces it), and an incomplete encoding at the end is left over.
/// Returns the characters and the bytes left over.
pub open spec fn utf8_decode_prefix(bytes: Seq<u8>) -> (Seq<char>, Seq<u8>)
    decreases bytes.len(),
{
    if bytes.len() == 0 {
        (Seq::empty(), Seq::empty())
    } else if valid_first_scalar(bytes) {
        proof {
            assert(pop_first_scalar(bytes).len() < bytes.len());
        }
        let r = utf8_decode_prefix(pop_first_scalar(bytes));
        (seq![decode_first_scalar(bytes) as char] + r.0, r.1)
    } else if incomplete_scalar(bytes) {
        (Seq::empty(), bytes)
    } else {
        let r = utf8_decode_prefix(bytes.skip(invalid_len(bytes)));
        (seq![REPLACEMENT_CHARACTER] + r.0, r.1)
    }
}

proof fn lemma_width_1(b0: u8)
    by (bit_vector)
    requires
        b0 <= 0x7f,
    ensures
        codepoint_width_1(b0) <= 0x7f,
{
}

proof fn lemma_width_2(b0: u8, b1: u8)
    by (bit_vector)
    requires
        0xc0 <= b0 <= 0xdf,
        0x80 <= b1 <= 0xbf,
    ensures
        (codepoint_width_2(b0, b1) >= 0x80) == (b0 >= 0xc2),
        codepoint_width_2(b0, b1) <= 0x7ff,
{
}

proof fn lemma_width_3(b0: u8, b1: u8, b2: u8)
    by (bit_vector)
    requires
        0xe0 <= b0 <= 0xef,
        0x80 <= b1 <= 0xbf,
        0x80 <= b2 <= 0xbf,
    ensures
        (codepoint_width_3(b0, b1, b2) >= 0x800) == !(b0 == 0xe0 && b1 < 0xa0),
        (0xd800 <= codepoint_width_3(b0, b1, b2) <= 0xdfff) == (b0 == 0xed && b1 >= 0xa0),
        codepoint_width_3(b0, b1, b2) <= 0xffff,
{
}

proof fn lemma_width_4(b0: u8, b1: u8, b2: u8, b3: u8)
    by (bit_vector)
    requires
        0xf0 <= b0 <= 0xf7,
        0x80 <= b1 <= 0xbf,
        0x80 <= b2 <= 0xbf,
        0x80 <= b3 <= 0xbf,
    ensures
        (0x10000 <= codepoint_width_4(b0, b1, b2, b3) <= 0x10ffff) == (b0 <= 0xf4 && !(b0
            == 0xf0 && b1 < 0x90) && !(b0 == 0xf4 && b1 > 0x8f)),
{
}

/// The table of well-formed encodings agrees with vstd's definition of a
/// valid first scalar.
pub proof fn lemma_accepted_iff_valid(x: Seq<u8>)
    requires
        x.len() > 0,
    ensures
        valid_first_scalar(x) <==> (well_formed_width(x[0]) >= 1 && accepted_len(x)
            == well_formed_width(x[0])),
        valid_first_scalar(x) ==> length_of_first_scalar(x) == well_formed_width(x[0]),
        valid_first_scalar(x) ==> decode_first_scalar(x) <= 0x10ffff,
        0 <= accepted_len(x) <= x.len(),
        accepted_len(x) <= well_formed_width(x[0]),
{
    let b0 = x[0];
    if b0 <= 0x7f {
        lemma_width_1(b0);
    } else if 0xc0 <= b0 <= 0xdf {
        if x.len() >= 2 && is_continuation_byte(x[1]) {
            lemma_width_2(b0, x[1]);
        }
    } else if 0xe0 <= b0 <= 0xef {
        if x.len() >= 3 && is_continuation_byte(x[1]) && is_continuation_byte(x[2]) {
            lemma_width_3(b0, x[1], x[2]);
        }
    } else if 0xf0 <= b0 <= 0xf7 {
        if x.len() >= 4 && is_continuation_byte(x[1]) && is_continuation_byte(x[2])
            && is_continuation_byte(x[3]) {
            lemma_width_4(b0, x[1], x[2], x[3]);
        }
    }
}

/// Calls `char::from_u32`, which gives the char with that value when it is a
/// Unicode scalar value (at most U+10FFFF and no surrogate), else `None`.
#[verifier::external_body]
fn char_from_u32(v: u32) -> (res: Option<char>)
    ensures
        res == (if v <= 0x10ffff && !(0xd800 <= v <= 0xdfff) {
            Some(v as char)
        } else {
            None
        }),
{
    char::from_u32(v)
}

/// How the bytes at a position begin.
enum Step {
    Scalar(char, usize),
    Incomplete,
    Invalid(usize),
}

/// The bytes `s` agree with `x + y` wherever `x` reaches.
proof fn lemma_first_scalar_prefix(x: Seq<u8>, y: Seq<u8>)
    requires
        x.len() >= utf8_width(x[0]) >= 1,
    ensures
        valid_first_scalar(x + y) == valid_first_scalar(x),
        valid_first_scalar(x) ==> decode_first_scalar(x + y) == decode_first_scalar(x)
            && length_of_first_scalar(x + y) == length_of_first_scalar(x)
            && pop_first_scalar(x + y) == pop_first_scalar(x) + y,
{
    let z = x + y;
    assert(z[0] == x[0]);
    if x.len() > 1 {
        assert(z[1] == x[1]);
    }
    if x.len() > 2 {
        assert(z[2] == x[2]);
    }
    if x.len() > 3 {
        assert(z[3] == x[3]);
    }
    if valid_first_scalar(x) {
        let w = length_of_first_scalar(x);
        assert(pop_first_scalar(z) =~= pop_first_scalar(x) + y);
    }
}

fn second_byte_ok_exec(b0: u8, b1: u8) -> (res: bool)
    ensures
        res == second_byte_ok(b0, b1),
{
    if b0 == 0xe0 {
        0xa0 <= b1 && b1 <= 0xbf
    } else if b0 == 0xed {
        0x80 <= b1 && b1 <= 0x9f
    } else if b0 == 0xf0 {
        0x90 <= b1 && b1 <= 0xbf
    } else if b0 == 0xf4 {
        0x80 <= b1 && b1 <= 0x8f
    } else {
        0x80 <= b1 && b1 <= 0xbf
    }
}

/// How `b[i..]` begins.
fn classify_at(b: &[u8], i: usize) -> (res: Step)
    requires
        i < b@.len(),
    ensures
        match res {
            Step::Scalar(c, w) => valid_first_scalar(b@.skip(i as int)) && c == decode_first_scalar(
                b@.skip(i as int),
            ) as char && w == length_of_first_scalar(b@.skip(i as int)),
            Step::Incomplete => !valid_first_scalar(b@.skip(i as int)) && incomplete_scalar(
                b@.skip(i as int),
            ),
            Step::Invalid(k) => !valid_first_scalar(b@.skip(i as int)) && !incomplete_scalar(
                b@.skip(i as int),
            ) && k == invalid_len(b@.skip(i as int)),
        },
{
    let ghost s = b@.skip(i as int);
    proof {
        lemma_accepted_iff_valid(s);
    }
    let n = b.len() - i;
    let b0 = b[i];
    assert(s[0] == b0);
    let w: usize = if b0 <= 0x7f {
        1
    } else if 0xc2 <= b0 && b0 <= 0xdf {
        2
    } else if 0xe0 <= b0 && b0 <= 0xef {
        3
    } else if 0xf0 <= b0 && b0 <= 0xf4 {
        4
    } else {
        0
    };
    assert(w == well_formed_width(b0));
    if w == 0 {
        return Step::Invalid(1);
    }
    let acc: usize = if w == 1 {
        1
    } else if n < 2 || !second_byte_ok_exec(b0, b[i + 1]) {
        1
    } else if w == 2 || n < 3 || !(0x80 <= b[i + 2] && b[i + 2] <= 0xbf) {
        2
    } else if w == 3 || n < 4 || !(0x80 <= b[i + 3] && b[i + 3] <= 0xbf) {
        3
    } else {
        4
    };
    proof {
        if n >= 2 {
            assert(s[1] == b[i + 1]);
        }
        if n >= 3 {
            assert(s[2] == b[i + 2]);
        }
        if n >= 4 {
            assert(s[3] == b[i + 3]);
        }
    }
    assert(acc == accepted_len(s));
    if acc < w {
        if acc == n {
            return Step::Incomplete;
        }
        return Step::Invalid(acc);
    }
    let cp: u32 = if w == 1 {
        (b0 & 0x7f) as u32
    } else if w == 2 {
        let b1 = b[i + 1];
        (((b0 & 0x1f) as u32) << 6u32) | ((b1 & 0x3f) as u32)
    } else if w == 3 {
        let b1 = b[i + 1];
        let b2 = b[i + 2];
        (((b0 & 0x0f) as u32) << 12u32) | (((b1 & 0x3f) as u32) << 6u32) | ((b2 & 0x3f) as u32)
    } else {
        let b1 = b[i + 1];
        let b2 = b[i + 2];
        let b3 = b[i + 3];
        (((b0 & 0x07) as u32) << 18u32) | (((b1 & 0x3f) as u32) << 12u32) | (((b2 & 0x3f) as u32)
            << 6u32) | ((b3 & 0x3f) as u32)
    };
    assert(valid_first_scalar(s));
    assert(cp == decode_first_codepoint(s));
    match char_from_u32(cp) {
        Some(c) => Step::Scalar(c, w),
        None => {
            assert(false);
            Step::Incomplete
        },
    }
}

/// Decodes `bytes` from the front; see `utf8_decode_prefix`.
pub fn decode_utf8_prefix(bytes: &[u8]) -> (res: (Vec<char>, Vec<u8>))
    ensures
        res.0@ == utf8_decode_prefix(bytes@).0,
        res.1@ == utf8_decode_prefix(bytes@).1,
{
    let n = bytes.len();
    let mut out: Vec<char> = Vec::new();
    let mut i: usize = 0;
    assert(bytes@.skip(0) =~= bytes@);
    loop
        invariant
            n == bytes@.len(),
            0 <= i <= n,
            out@ + utf8_decode_prefix(bytes@.skip(i as int)).0 == utf8_decode_prefix(bytes@).0,
            utf8_decode_prefix(bytes@.skip(i as int)).1 == utf8_decode_prefix(bytes@).1,
        decreases n - i,
    {
        let ghost s = bytes@.skip(i as int);
        if i == n {
            assert(s.len() == 0);
            assert(out@ + Seq::<char>::empty() =~= out@);
            return (out, Vec::new());
        }
        match classify_at(bytes, i) {
            Step::Scalar(c, w) => {
                let ghost before = out@;
                out.push(c);
                proof {
                    assert(pop_first_scalar(s) =~= bytes@.skip(i + w));
                    assert(before + utf8_decode_prefix(s).0 =~= out@ + utf8_decode_prefix(
                        bytes@.skip(i + w),
                    ).0);
                }
                i = i + w;
            },
            Step::Incomplete => {
                let mut rest: Vec<u8> = Vec::new();
                let mut j = i;
                while j < n
                    invariant
                        i <= j <= n,
                        n == bytes@.len(),
                        rest@ == bytes@.subrange(i as int, j as int),
                    decreases n - j,
                {
                    rest.push(bytes[j]);
                    j = j + 1;
                }
                assert(rest@ =~= s);
                assert(out@ + Seq::<char>::empty() =~= out@);
                return (out, rest);
            },
            Step::Invalid(k) => {
                let ghost before = out@;
                out.push(REPLACEMENT_CHARACTER);
                proof {
                    lemma_accepted_iff_valid(s);
                    assert(s.skip(k as int) =~= bytes@.skip(i + k));
                    assert(before + utf8_decode_prefix(s).0 =~= out@ + utf8_decode_prefix(
                        bytes@.skip(i + k),
                    ).0);
                }
                i = i + k;
            },
        }
    }
}

/// Bytes that arrive later do not change how the bytes before them decode:
/// decoding `x + y` is decoding `x`, then decoding what `x` left over
/// followed by `y`.
pub proof fn lemma_decode_prefix_append(x: Seq<u8>, y: Seq<u8>)
    ensures
        ({
            let r = utf8_decode_prefix(x);
            let rest = utf8_decode_prefix(r.1 + y);
            utf8_decode_prefix(x + y) == (r.0 + rest.0, rest.1)
        }),
    decreases x.len(),
{
    let z = x + y;
    if x.len() == 0 {
        assert(z =~= y);
        assert(Seq::<u8>::empty() + y =~= y);
        assert(Seq::<char>::empty() + utf8_decode_prefix(y).0 =~= utf8_decode_prefix(y).0);
    } else {
        assert(z[0] == x[0]);
        if valid_first_scalar(x) {
            lemma_first_scalar_prefix(x, y);
            let p = pop_first_scalar(x);
            lemma_decode_prefix_append(p, y);
            let r = utf8_decode_prefix(p);
            let rest = utf8_decode_prefix(r.1 + y);
            assert(seq![decode_first_scalar(x) as char] + (r.0 + rest.0) =~= seq![
                decode_first_scalar(x) as char,
            ] + r.0 + rest.0);
        } else if incomplete_scalar(x) {
            assert(Seq::<char>::empty() + utf8_decode_prefix(z).0 =~= utf8_decode_prefix(z).0);
        } else {
            // x starts no valid encoding and can not be completed: neither can x + y,
            // and the same bytes are replaced
            lemma_accepted_iff_valid(x);
            lemma_accepted_iff_valid(z);
            if x.len() > 1 {
                assert(z[1] == x[1]);
            }
            if x.len() > 2 {
                assert(z[2] == x[2]);
            }
            if x.len() > 3 {
                assert(z[3] == x[3]);
            }
            assert(accepted_len(z) == accepted_len(x));
            let k = invalid_len(x);
            assert(z.skip(k) =~= x.skip(k) + y);
            lemma_decode_prefix_append(x.skip(k), y);
            let r = utf8_decode_prefix(x.skip(k));
            let rest = utf8_decode_prefix(r.1 + y);
            assert(seq![REPLACEMENT_CHARACTER] + (r.0 + rest.0) =~= seq![REPLACEMENT_CHARACTER]
                + r.0 + rest.0);
        }
    }
}

/// Valid UTF-8 decodes completely, to what `decode_utf8` says.
pub proof fn lemma_valid_utf8_decodes(bytes: Seq<u8>)
    requires
        valid_utf8(bytes),
    ensures
        utf8_decode_prefix(bytes) == (decode_utf8(bytes), Seq::<u8>::empty()),
    decreases bytes.len(),
{
    if bytes.len() > 0 {
        assert(pop_first_scalar(bytes).len() < bytes.len());
        lemma_valid_utf8_decodes(pop_first_scalar(bytes));
    }
}

} // verus!
