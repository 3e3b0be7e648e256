//! Byte-level facts about UTF-8 text, and slicing text by byte offsets.

use vstd::prelude::*;
use vstd::string::StrSliceExecFns;
use vstd::string::StringSliceAdditionalSpecFns;
use vstd::utf8::*;

verus! {

/// A byte below 0x80 is a character of its own, so a boundary sits right
/// before it and right after it.
pub proof fn lemma_ascii_byte_boundaries(bytes: Seq<u8>, i: int)
    requires
        valid_utf8(bytes),
        0 <= i < bytes.len(),
        bytes[i] < 0x80,
    ensures
        is_char_boundary(bytes, i),
        is_char_boundary(bytes, i + 1),
    decreases bytes.len(),
{
    is_char_boundary_iff_not_is_continuation_byte(bytes, i);
    let len = length_of_first_scalar(bytes);
    assert(len >= 1 && len <= bytes.len());
    if i == 0 {
        assert(len == 1);
        let rest = pop_first_scalar(bytes);
        assert(is_char_boundary(rest, 0));
    } else if i < len {
        assert(is_continuation_byte(bytes[i]));
    } else {
        let rest = pop_first_scalar(bytes);
        assert(rest.len() == bytes.len() - len);
        assert(rest[i - len] == bytes[i]);
        lemma_ascii_byte_boundaries(rest, i - len);
    }
}

/// Boundaries at or after a boundary `a` are the boundaries of the text
/// from `a` on, moved by `a`.
pub proof fn lemma_suffix_boundary(bytes: Seq<u8>, a: int, b: int)
    requires
        valid_utf8(bytes),
        0 <= a <= b <= bytes.len(),
        is_char_boundary(bytes, a),
    ensures
        valid_utf8(bytes.subrange(a, bytes.len() as int)),
        is_char_boundary(bytes, b) <==> is_char_boundary(bytes.subrange(a, bytes.len() as int), b - a),
{
    let rest = bytes.subrange(a, bytes.len() as int);
    valid_utf8_split(bytes, a);
    is_char_boundary_start_end_of_seq(bytes);
    is_char_boundary_start_end_of_seq(rest);
    if b < bytes.len() {
        is_char_boundary_iff_not_is_continuation_byte(bytes, b);
        is_char_boundary_iff_not_is_continuation_byte(rest, b - a);
    }
}

/// The text of `s` from byte `from` to byte `to`.
pub fn substring(s: &str, from: usize, to: usize) -> (r: &str)
    requires
        from <= to <= s.spec_bytes().len(),
        is_char_boundary(s.spec_bytes(), from as int),
        is_char_boundary(s.spec_bytes(), to as int),
    ensures
        r.spec_bytes() == s.spec_bytes().subrange(from as int, to as int),
{
    let ghost bytes = s.spec_bytes();
    proof {
        encode_utf8_valid_utf8(s@);
        lemma_suffix_boundary(bytes, from as int, to as int);
    }
    let (_, rest) = s.split_at(from);
    assert(rest.spec_bytes() == bytes.subrange(from as int, bytes.len() as int));
    let (r, _) = rest.split_at(to - from);
    assert(r.spec_bytes() =~= bytes.subrange(from as int, to as int));
    r
}

/// The characters that the bytes of a text decode to: the text itself.
pub proof fn lemma_text_of_bytes(s: &str)
    ensures
        valid_utf8(s.spec_bytes()),
        decode_utf8(s.spec_bytes()) == s@,
{
    encode_utf8_valid_utf8(s@);
    encode_utf8_decode_utf8(s@);
}

/// The characters with the Unicode White_Space property (PropList.txt).
pub open spec fn is_white_space(c: char) -> bool {
    let u = c as u32;
    ||| 0x9 <= u <= 0xd
    ||| u == 0x20
    ||| u == 0x85
    ||| u == 0xa0
    ||| u == 0x1680
    ||| 0x2000 <= u <= 0x200a
    ||| u == 0x2028
    ||| u == 0x2029
    ||| u == 0x202f
    ||| u == 0x205f
    ||| u == 0x3000
}

pub open spec fn trim_start_ws(s: Seq<char>) -> Seq<char>
    decreases s.len(),
{
    if s.len() > 0 && is_white_space(s[0]) {
        trim_start_ws(s.drop_first())
    } else {
        s
    }
}

pub open spec fn trim_end_ws(s: Seq<char>) -> Seq<char>
    decreases s.len(),
{
    if s.len() > 0 && is_white_space(s.last()) {
        trim_end_ws(s.drop_last())
    } else {
        s
    }
}

/// `s` without its leading and trailing whitespace.
pub open spec fn trim_ws(s: Seq<char>) -> Seq<char> {
    trim_end_ws(trim_start_ws(s))
}

fn is_white_space_char(c: char) -> (ws: bool)
    ensures
        ws == is_white_space(c),
{
    let u = c as u32;
    (0x9 <= u && u <= 0xd) || u == 0x20 || u == 0x85 || u == 0xa0 || u == 0x1680 || (0x2000 <= u && u
        <= 0x200a) || u == 0x2028 || u == 0x2029 || u == 0x202f || u == 0x205f || u == 0x3000
}

proof fn lemma_trim_start(s: Seq<char>, i: int)
    requires
        0 <= i <= s.len(),
        forall|j: int| 0 <= j < i ==> is_white_space(#[trigger] s[j]),
        i < s.len() ==> !is_white_space(s[i]),
    ensures
        trim_start_ws(s) == s.subrange(i, s.len() as int),
    decreases i,
{
    if i == 0 {
        assert(s.subrange(0, s.len() as int) =~= s);
    } else {
        let rest = s.drop_first();
        assert forall|j: int| 0 <= j < i - 1 implies is_white_space(#[trigger] rest[j]) by {
            assert(rest[j] == s[j + 1]);
        }
        if i - 1 < rest.len() {
            assert(rest[i - 1] == s[i]);
        }
        lemma_trim_start(rest, i - 1);
        assert(rest.subrange(i - 1, rest.len() as int) =~= s.subrange(i, s.len() as int));
    }
}

proof fn lemma_trim_end(s: Seq<char>, k: int)
    requires
        0 <= k <= s.len(),
        forall|j: int| k <= j < s.len() ==> is_white_space(#[trigger] s[j]),
        k > 0 ==> !is_white_space(s[k - 1]),
    ensures
        trim_end_ws(s) == s.subrange(0, k),
    decreases s.len() - k,
{
    if k == s.len() {
        assert(s.subrange(0, k) =~= s);
    } else {
        let init = s.drop_last();
        assert forall|j: int| k <= j < init.len() implies is_white_space(#[trigger] init[j]) by {
            assert(init[j] == s[j]);
        }
        if k > 0 {
            assert(init[k - 1] == s[k - 1]);
        }
        lemma_trim_end(init, k);
        assert(init.subrange(0, k) =~= s.subrange(0, k));
    }
}

/// `s` without its leading and trailing whitespace, whitespace being the
/// characters with the Unicode White_Space property (as `str::trim` has
/// it).
pub fn trim(s: &str) -> (r: &str)
    ensures
        r@ == trim_ws(s@),
{
    let n = s.unicode_len();
    let mut i: usize = 0;
    while i < n && is_white_space_char(s.get_char(i))
        invariant
            n == s@.len(),
            i <= n,
            forall|j: int| 0 <= j < i ==> is_white_space(#[trigger] s@[j]),
        decreases n - i,
    {
        i = i + 1;
    }
    let mut k: usize = n;
    while k > i && is_white_space_char(s.get_char(k - 1))
        invariant
            n == s@.len(),
            i <= k <= n,
            forall|j: int| k <= j < n ==> is_white_space(#[trigger] s@[j]),
        decreases k,
    {
        k = k - 1;
    }
    proof {
        lemma_trim_start(s@, i as int);
        let rest = s@.subrange(i as int, n as int);
        assert forall|j: int| k - i <= j < rest.len() implies is_white_space(#[trigger] rest[j]) by {
            assert(rest[j] == s@[i + j]);
        }
        if k > i {
            assert(rest[k - i - 1] == s@[k - 1]);
        }
        lemma_trim_end(rest, k - i);
        assert(rest.subrange(0, k - i) =~= s@.subrange(i as int, k as int));
    }
    s.substring_char(i, k)
}

/// Some `\r\n` occurs in `bytes`.
pub open spec fn has_crlf(bytes: Seq<u8>) -> bool {
    exists|i: int| 0 <= i < bytes.len() - 1 && bytes[i] == 13 && #[trigger] bytes[i + 1] == 10
}

/// Whether some `\r\n` occurs before byte `end`.
pub fn has_crlf_before(bytes: &[u8], end: usize) -> (r: bool)
    requires
        end <= bytes@.len(),
    ensures
        r == has_crlf(bytes@.subrange(0, end as int)),
{
    let ghost before = bytes@.subrange(0, end as int);
    let mut i: usize = 0;
    while end > 0 && i < end - 1
        invariant
            end <= bytes@.len(),
            before == bytes@.subrange(0, end as int),
            i <= end,
            forall|j: int| 0 <= j < i && j + 1 < end ==> !(before[j] == 13 && #[trigger] before[j + 1] == 10),
        decreases end - i,
    {
        if bytes[i] == 13u8 && bytes[i + 1] == 10u8 {
            assert(before[i as int] == 13 && before[i + 1] == 10);
            return true;
        }
        i = i + 1;
    }
    false
}


/// The encoding of two texts one after the other is their two encodings one
/// after the other.
pub proof fn lemma_encode_concat(a: Seq<char>, b: Seq<char>)
    ensures
        encode_utf8(a + b) == encode_utf8(a) + encode_utf8(b),
    decreases a.len(),
{
    if a.len() == 0 {
        assert(a + b =~= b);
        assert(encode_utf8(a) + encode_utf8(b) =~= encode_utf8(b));
    } else {
        assert((a + b).drop_first() =~= a.drop_first() + b);
        assert((a + b)[0] == a[0]);
        lemma_encode_concat(a.drop_first(), b);
        assert(encode_utf8(a + b) =~= encode_utf8(a) + encode_utf8(b));
    }
}

/// Where two valid UTF-8 texts meet, the two together have a character
/// boundary.
pub proof fn lemma_boundary_at_join(x: Seq<u8>, y: Seq<u8>)
    requires
        valid_utf8(x),
        valid_utf8(y),
    ensures
        valid_utf8(x + y),
        is_char_boundary(x + y, x.len() as int),
    decreases x.len(),
{
    valid_utf8_concat(x, y);
    if x.len() == 0 {
        assert(x + y =~= y);
    } else {
        let n = length_of_first_scalar(x);
        let rest = pop_first_scalar(x);
        assert(1 <= n <= x.len());
        assert(rest.len() == x.len() - n);
        assert((x + y)[0] == x[0]);
        assert(length_of_first_scalar(x + y) == n) by {
            if n >= 2 { assert((x + y)[1] == x[1]); }
            if n >= 3 { assert((x + y)[2] == x[2]); }
            if n >= 4 { assert((x + y)[3] == x[3]); }
        }
        assert(pop_first_scalar(x + y) =~= rest + y);
        lemma_boundary_at_join(rest, y);
    }
}


/// A character boundary of valid UTF-8 text `x` stays one, moved by the
/// length of `a`, when `x` stands between valid texts `a` and `b`.
pub proof fn lemma_boundary_inside(a: Seq<u8>, x: Seq<u8>, b: Seq<u8>, k: int)
    requires
        valid_utf8(a),
        valid_utf8(x),
        valid_utf8(b),
        0 <= k <= x.len(),
        is_char_boundary(x, k),
    ensures
        valid_utf8(a + x + b),
        is_char_boundary(a + x + b, a.len() + k),
{
    let x1 = x.subrange(0, k);
    let x2 = x.subrange(k, x.len() as int);
    valid_utf8_split(x, k);
    lemma_boundary_at_join(a, x1);
    lemma_boundary_at_join(x2, b);
    lemma_boundary_at_join(a + x1, x2 + b);
    assert(a + x + b =~= (a + x1) + (x2 + b));
}

} // verus!
