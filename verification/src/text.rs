//! Strings as sequences of characters, with positions counted in bytes.
//!
//! Rust counts positions in a string in bytes. The model of a string is its sequence of
//! characters, so a position in the model is a number of characters, and
//! [`byte_offset`] turns it into the number of bytes that stand before it.
use vstd::prelude::*;
use vstd::string::*;
use vstd::utf8::*;

verus! {

/// How many bytes stand before character `k` of `text`.
pub open spec fn byte_offset(text: Seq<char>, k: int) -> nat {
    encode_utf8(text.take(k)).len()
}

/// A position in characters, if there is one, as the same position in bytes.
pub open spec fn in_bytes(text: Seq<char>, position: Option<int>) -> Option<int> {
    match position {
        Some(k) => Some(byte_offset(text, k) as int),
        None => None,
    }
}

/// Whether `b` bytes of `text` are a whole number of characters.
pub open spec fn is_position(text: Seq<char>, b: int) -> bool {
    exists|k: int| 0 <= k <= text.len() && #[trigger] byte_offset(text, k) == b
}

/// The number of characters that the first `b` bytes of `text` are.
pub open spec fn char_position(text: Seq<char>, b: int) -> int {
    choose|k: int| 0 <= k <= text.len() && #[trigger] byte_offset(text, k) == b
}

/// A position in bytes, if there is one, as the same position in characters.
pub open spec fn in_chars(text: Seq<char>, position: Option<usize>) -> Option<int> {
    match position {
        Some(b) => Some(char_position(text, b as int)),
        None => None,
    }
}

/// Whether `needle` stands in `text` from character `k` on.
pub open spec fn occurs_at(text: Seq<char>, needle: Seq<char>, k: int) -> bool {
    &&& 0 <= k
    &&& k + needle.len() <= text.len()
    &&& text.subrange(k, k + needle.len()) == needle
}

/// The first position at or after `from` at which `needle` stands in `text`.
pub open spec fn find_from(text: Seq<char>, needle: Seq<char>, from: int) -> Option<int>
    decreases text.len() - from + 1,
{
    if from > text.len() {
        None
    } else if occurs_at(text, needle, from) {
        Some(from)
    } else {
        find_from(text, needle, from + 1)
    }
}

/// The first position at which `needle` stands in `text`.
pub open spec fn find_in(text: Seq<char>, needle: Seq<char>) -> Option<int> {
    find_from(text, needle, 0)
}

/// A result of [`find_from`] is the first occurrence, and there is one if `needle` occurs.
pub proof fn lemma_find_from(text: Seq<char>, needle: Seq<char>, from: int)
    requires
        0 <= from,
    ensures
        match find_from(text, needle, from) {
            Some(k) => {
                &&& from <= k
                &&& occurs_at(text, needle, k)
                &&& forall|j: int| from <= j < k ==> !#[trigger] occurs_at(text, needle, j)
            },
            None => forall|j: int| from <= j ==> !#[trigger] occurs_at(text, needle, j),
        },
    decreases text.len() - from + 1,
{
    if from <= text.len() && !occurs_at(text, needle, from) {
        lemma_find_from(text, needle, from + 1);
    }
}

/// The encoding of two texts in a row is the two encodings in a row.
pub proof fn lemma_encode_add(a: Seq<char>, b: Seq<char>)
    ensures
        encode_utf8(a + b) == encode_utf8(a) + encode_utf8(b),
    decreases a.len(),
{
    if a.len() == 0 {
        assert(a + b =~= b);
        assert(encode_utf8(a) + encode_utf8(b) =~= encode_utf8(b));
    } else {
        lemma_encode_add(a.drop_first(), b);
        assert((a + b).drop_first() =~= a.drop_first() + b);
        assert(encode_utf8(a + b) =~= encode_scalar(a[0] as u32) + (encode_utf8(a.drop_first())
            + encode_utf8(b)));
        assert(encode_utf8(a) + encode_utf8(b) =~= encode_scalar(a[0] as u32) + (encode_utf8(
            a.drop_first(),
        ) + encode_utf8(b)));
    }
}

/// Two texts with the same encoding are the same text.
pub proof fn lemma_encode_injective(a: Seq<char>, b: Seq<char>)
    requires
        encode_utf8(a) == encode_utf8(b),
    ensures
        a == b,
{
    encode_utf8_decode_utf8(a);
    encode_utf8_decode_utf8(b);
}

/// A text that is not empty takes at least one byte.
pub proof fn lemma_encode_positive(a: Seq<char>)
    ensures
        encode_utf8(a).len() >= a.len(),
    decreases a.len(),
{
    if a.len() > 0 {
        lemma_encode_positive(a.drop_first());
    }
}

/// The encoding of `text` is that of its first `k` characters and that of the rest.
pub proof fn lemma_encode_split(text: Seq<char>, k: int)
    requires
        0 <= k <= text.len(),
    ensures
        encode_utf8(text) == encode_utf8(text.take(k)) + encode_utf8(text.skip(k)),
        byte_offset(text, k) <= encode_utf8(text).len(),
        encode_utf8(text).subrange(0, byte_offset(text, k) as int) == encode_utf8(text.take(k)),
        encode_utf8(text).skip(byte_offset(text, k) as int) == encode_utf8(text.skip(k)),
{
    lemma_encode_add(text.take(k), text.skip(k));
    assert(text.take(k) + text.skip(k) =~= text);
    assert(encode_utf8(text).subrange(0, byte_offset(text, k) as int) =~= encode_utf8(
        text.take(k),
    ));
    assert(encode_utf8(text).skip(byte_offset(text, k) as int) =~= encode_utf8(text.skip(k)));
}

/// Positions in bytes are in the order of the positions in characters.
pub proof fn lemma_byte_offset_monotone(text: Seq<char>, i: int, j: int)
    requires
        0 <= i <= j <= text.len(),
    ensures
        byte_offset(text, i) + (j - i) <= byte_offset(text, j),
        byte_offset(text, j) <= encode_utf8(text).len(),
{
    assert(text.take(j).take(i) =~= text.take(i));
    lemma_encode_split(text.take(j), i);
    lemma_encode_positive(text.take(j).skip(i));
    lemma_encode_split(text, j);
}

/// A position in characters is found again from its position in bytes.
pub proof fn lemma_char_position(text: Seq<char>, k: int)
    requires
        0 <= k <= text.len(),
    ensures
        is_position(text, byte_offset(text, k) as int),
        char_position(text, byte_offset(text, k) as int) == k,
{
    let found = char_position(text, byte_offset(text, k) as int);
    if found < k {
        lemma_byte_offset_monotone(text, found, k);
    } else {
        lemma_byte_offset_monotone(text, k, found);
    }
}

/// A position in bytes is found again from its position in characters.
pub proof fn lemma_position(text: Seq<char>, b: int)
    requires
        is_position(text, b),
    ensures
        0 <= char_position(text, b) <= text.len(),
        byte_offset(text, char_position(text, b)) == b,
{
}

/// The whole text stands before the position at its end.
pub proof fn lemma_byte_offset_ends(text: Seq<char>)
    ensures
        byte_offset(text, 0) == 0,
        byte_offset(text, text.len() as int) == encode_utf8(text).len(),
{
    assert(text.take(0) =~= Seq::empty());
    assert(text.take(text.len() as int) =~= text);
}

/// Every position in characters is a boundary in the encoding.
pub proof fn lemma_offset_is_boundary(text: Seq<char>, k: int)
    requires
        0 <= k <= text.len(),
    ensures
        is_char_boundary(encode_utf8(text), byte_offset(text, k) as int),
    decreases k,
{
    encode_utf8_valid_utf8(text);
    lemma_byte_offset_ends(text);
    if k > 0 {
        let rest = text.drop_first();
        lemma_offset_is_boundary(rest, k - 1);
        encode_utf8_first_scalar(text);
        assert(pop_first_scalar(encode_utf8(text)) =~= encode_utf8(rest));
        assert(text.take(k).drop_first() =~= rest.take(k - 1));
        assert(text.take(k)[0] == text[0]);
        lemma_encode_split(text, k);
        lemma_byte_offset_monotone(text, 0, k);
    }
}

/// Whether `needle` stands in `bytes` from byte `b` on.
pub open spec fn bytes_at(bytes: Seq<u8>, needle: Seq<u8>, b: int) -> bool {
    &&& 0 <= b
    &&& b + needle.len() <= bytes.len()
    &&& bytes.subrange(b, b + needle.len()) == needle
}

/// Where `needle` stands among the characters, its encoding stands among the bytes.
proof fn lemma_occurs_bytes(text: Seq<char>, needle: Seq<char>, k: int)
    requires
        occurs_at(text, needle, k),
    ensures
        bytes_at(encode_utf8(text), encode_utf8(needle), byte_offset(text, k) as int),
{
    let rest = text.skip(k);
    lemma_encode_split(text, k);
    lemma_encode_split(rest, needle.len() as int);
    assert(rest.take(needle.len() as int) =~= text.subrange(k, k + needle.len()));
    let b = byte_offset(text, k) as int;
    assert(encode_utf8(text).subrange(b, b + encode_utf8(needle).len()) =~= encode_utf8(
        needle,
    ));
}

/// Where the encoding of `needle` stands among the bytes, `needle` stands among the characters.
proof fn lemma_bytes_occurs(text: Seq<char>, needle: Seq<char>, b: int) -> (k: int)
    requires
        bytes_at(encode_utf8(text), encode_utf8(needle), b),
        needle.len() > 0 || b == 0,
    ensures
        occurs_at(text, needle, k),
        byte_offset(text, k) == b,
{
    let bytes = encode_utf8(text);
    let inner = encode_utf8(needle);
    encode_utf8_valid_utf8(text);
    encode_utf8_valid_utf8(needle);
    lemma_encode_positive(needle);
    // The needle starts at a boundary.
    is_char_boundary_start_end_of_seq(bytes);
    if needle.len() > 0 {
        is_char_boundary_start_end_of_seq(inner);
        is_char_boundary_iff_not_is_continuation_byte(inner, 0);
        assert(inner[0] == bytes[b]);
        is_char_boundary_iff_not_is_continuation_byte(bytes, b);
    }
    let tail = bytes.subrange(b, bytes.len() as int);
    let head = bytes.subrange(0, b);
    valid_utf8_split(bytes, b);
    // The needle ends at a boundary.
    let n = inner.len() as int;
    let last = tail.subrange(n, tail.len() as int);
    assert(tail.subrange(0, n) =~= inner);
    if !valid_utf8(last) {
        partial_valid_partial_invalid_utf8(tail, n);
    }
    let before = decode_utf8(head);
    let after = decode_utf8(last);
    decode_utf8_encode_utf8(head);
    decode_utf8_encode_utf8(last);
    lemma_encode_add(needle, after);
    lemma_encode_add(before, needle + after);
    assert(bytes =~= head + (inner + last));
    lemma_encode_injective(text, before + (needle + after));
    let k = before.len() as int;
    assert(text.take(k) =~= before);
    assert(text.subrange(k, k + needle.len()) =~= needle);
    k
}

/// The number of bytes of a text.
pub fn byte_len(text: &str) -> (len: usize)
    ensures
        len == encode_utf8(text@).len(),
{
    text.as_bytes().len()
}

/// Whether `needle` stands in `bytes` from byte `at` on.
fn bytes_match(bytes: &[u8], needle: &[u8], at: usize) -> (res: bool)
    requires
        at + needle@.len() <= bytes@.len(),
    ensures
        res == bytes_at(bytes@, needle@, at as int),
{
    let mut i: usize = 0;
    while i < needle.len()
        invariant
            i <= needle@.len(),
            at + needle@.len() <= bytes.len(),
            forall|j: int| 0 <= j < i ==> bytes@[at + j] == #[trigger] needle@[j],
        decreases needle@.len() - i,
    {
        if bytes[at + i] != needle[i] {
            assert(bytes@.subrange(at as int, at + needle@.len())[i as int] != needle@[i as int]);
            return false;
        }
        i += 1;
    }
    assert(bytes@.subrange(at as int, at + needle@.len()) =~= needle@);
    true
}

/// The byte position of the first occurrence of `needle` in `text`.
pub fn find(text: &str, needle: &str) -> (res: Option<usize>)
    ensures
        match res {
            Some(b) => in_bytes(text@, find_in(text@, needle@)) == Some(b as int),
            None => find_in(text@, needle@) is None,
        },
{
    let bytes = text.as_bytes();
    let inner = needle.as_bytes();
    proof {
        lemma_find_from(text@, needle@, 0);
        lemma_byte_offset_ends(text@);
    }
    let mut at: usize = 0;
    while inner.len() <= bytes.len() - at
        invariant
            bytes@ == encode_utf8(text@),
            inner@ == encode_utf8(needle@),
            at == 0 || needle@.len() > 0,
            forall|b: int| 0 <= b < at ==> !#[trigger] bytes_at(bytes@, inner@, b),
            at <= bytes@.len(),
        ensures
            forall|b: int| !#[trigger] bytes_at(bytes@, inner@, b),
        decreases bytes@.len() - at,
    {
        if bytes_match(bytes, inner, at) {
            proof {
                let k = lemma_bytes_occurs(text@, needle@, at as int);
                lemma_find_from(text@, needle@, 0);
                let first = find_in(text@, needle@)->0;
                if first < k {
                    lemma_occurs_bytes(text@, needle@, first);
                    lemma_byte_offset_monotone(text@, first, k);
                }
            }
            return Some(at);
        }
        proof {
            if needle@.len() == 0 {
                assert(bytes@.subrange(0, 0) =~= inner@);
            }
        }
        if at == bytes.len() {
            break;
        }
        at += 1;
    }
    proof {
        if find_in(text@, needle@) is Some {
            let first = find_in(text@, needle@)->0;
            lemma_occurs_bytes(text@, needle@, first);
        }
    }
    None
}

/// What stands in `text` from byte `at` on, which is character `k`.
pub(crate) fn tail_at<'a>(text: &'a str, at: usize, Ghost(k): Ghost<int>) -> (tail: &'a str)
    requires
        0 <= k <= text@.len(),
        at == byte_offset(text@, k),
    ensures
        tail@ == text@.skip(k),
{
    proof {
        lemma_offset_is_boundary(text@, k);
        lemma_encode_split(text@, k);
    }
    let (_head, tail) = text.split_at(at);
    proof {
        assert(encode_utf8(tail@) =~= encode_utf8(text@.skip(k)));
        lemma_encode_injective(tail@, text@.skip(k));
    }
    tail
}

/// Whether `text` starts with `prefix`.
pub open spec fn has_prefix(text: Seq<char>, prefix: Seq<char>) -> bool {
    prefix.len() <= text.len() && text.take(prefix.len() as int) == prefix
}

/// What is left of `text` behind `prefix`, where it starts with it.
pub fn strip_prefix<'a>(text: &'a str, prefix: &str) -> (res: Option<&'a str>)
    ensures
        match res {
            Some(rest) => has_prefix(text@, prefix@) && rest@ == text@.skip(prefix@.len() as int),
            None => !has_prefix(text@, prefix@),
        },
{
    let bytes = text.as_bytes();
    let inner = prefix.as_bytes();
    let ghost k = prefix@.len() as int;
    proof {
        if has_prefix(text@, prefix@) {
            assert(text@.subrange(0, k) =~= text@.take(k));
            lemma_occurs_bytes(text@, prefix@, 0);
            lemma_byte_offset_ends(text@);
        }
    }
    if inner.len() <= bytes.len() && bytes_match(bytes, inner, 0) {
        proof {
            lemma_byte_offset_ends(text@);
            let at = lemma_bytes_occurs(text@, prefix@, 0);
            if at > 0 {
                lemma_byte_offset_monotone(text@, 0, at);
            }
            assert(text@.take(k) =~= prefix@);
        }
        Some(tail_at(text, inner.len(), Ghost(k)))
    } else {
        None
    }
}

/// What stands in `text` before byte `at`, which is character `k`.
fn head_at<'a>(text: &'a str, at: usize, Ghost(k): Ghost<int>) -> (head: &'a str)
    requires
        0 <= k <= text@.len(),
        at == byte_offset(text@, k),
    ensures
        head@ == text@.take(k),
{
    proof {
        lemma_offset_is_boundary(text@, k);
        lemma_encode_split(text@, k);
    }
    let (head, _tail) = text.split_at(at);
    proof {
        assert(encode_utf8(head@) =~= encode_utf8(text@.take(k)));
        lemma_encode_injective(head@, text@.take(k));
    }
    head
}

/// The position of the last slash in `text`.
pub open spec fn last_slash(text: Seq<char>) -> Option<int>
    decreases text.len(),
{
    if text.len() == 0 {
        None
    } else if text.last() == '/' {
        Some(text.len() - 1)
    } else {
        last_slash(text.drop_last())
    }
}

/// A result of [`last_slash`] is the last slash, and there is one if a slash stands there.
pub proof fn lemma_last_slash(text: Seq<char>)
    ensures
        match last_slash(text) {
            Some(k) => {
                &&& 0 <= k < text.len()
                &&& text[k] == '/'
                &&& forall|j: int| k < j < text.len() ==> #[trigger] text[j] != '/'
            },
            None => forall|j: int| 0 <= j < text.len() ==> #[trigger] text[j] != '/',
        },
    decreases text.len(),
{
    if text.len() > 0 && text.last() != '/' {
        lemma_last_slash(text.drop_last());
        assert forall|j: int| 0 <= j < text.len() && text[j] == '/' implies j < text.len() - 1
            && text.drop_last()[j] == '/' by {}
    }
}

/// A slash is a single byte.
proof fn lemma_slash_bytes()
    ensures
        encode_utf8(seq!['/']) == seq![0x2fu8],
{
    let slash = seq!['/'];
    is_ascii_chars_encode_utf8(slash);
    assert(encode_utf8(slash)[0] == slash[0] as u8);
    assert(encode_utf8(slash) =~= seq![0x2fu8]);
}

/// A slash among the characters is a slash among the bytes.
proof fn lemma_slash_byte(text: Seq<char>, k: int)
    requires
        0 <= k < text.len(),
        text[k] == '/',
    ensures
        byte_offset(text, k) < encode_utf8(text).len(),
        encode_utf8(text)[byte_offset(text, k) as int] == 0x2f,
        byte_offset(text, k + 1) == byte_offset(text, k) + 1,
{
    lemma_slash_bytes();
    assert(text.subrange(k, k + 1) =~= seq!['/']);
    lemma_occurs_bytes(text, seq!['/'], k);
    let b = byte_offset(text, k) as int;
    assert(encode_utf8(text).subrange(b, b + 1)[0] == encode_utf8(text)[b]);
    lemma_encode_add(text.take(k), seq!['/']);
    assert(text.take(k + 1) =~= text.take(k) + seq!['/']);
}

/// A slash among the bytes is a slash among the characters.
proof fn lemma_byte_slash(text: Seq<char>, b: int) -> (k: int)
    requires
        0 <= b < encode_utf8(text).len(),
        encode_utf8(text)[b] == 0x2f,
    ensures
        0 <= k < text.len(),
        text[k] == '/',
        byte_offset(text, k) == b,
{
    lemma_slash_bytes();
    assert(encode_utf8(text).subrange(b, b + 1) =~= seq![0x2fu8]);
    let k = lemma_bytes_occurs(text, seq!['/'], b);
    assert(text.subrange(k, k + 1)[0] == text[k]);
    k
}

/// What stands in `text` up to its last slash, with the slash.
pub fn through_last_slash<'a>(text: &'a str) -> (res: Option<&'a str>)
    ensures
        match res {
            Some(head) => last_slash(text@) matches Some(k) && head@ == text@.take(k + 1),
            None => last_slash(text@) is None,
        },
{
    let bytes = text.as_bytes();
    let mut at: usize = bytes.len();
    proof {
        lemma_last_slash(text@);
    }
    while at > 0
        invariant
            at <= bytes@.len(),
            bytes@ == encode_utf8(text@),
            forall|b: int| at <= b < bytes@.len() ==> #[trigger] bytes@[b] != 0x2f,
        decreases at,
    {
        at -= 1;
        if bytes[at] == 0x2f {
            let ghost k = lemma_byte_slash(text@, at as int);
            proof {
                lemma_last_slash(text@);
                let last = last_slash(text@)->0;
                lemma_slash_byte(text@, last);
                if k < last {
                    lemma_byte_offset_monotone(text@, k, last);
                }
                lemma_slash_byte(text@, k);
            }
            return Some(head_at(text, at + 1, Ghost(k + 1)));
        }
    }
    proof {
        if last_slash(text@) is Some {
            lemma_slash_byte(text@, last_slash(text@)->0);
        }
    }
    None
}

/// `text` without the slash that it ends in, if it does.
pub open spec fn without_final_slash(text: Seq<char>) -> Seq<char> {
    if text.len() > 0 && text.last() == '/' {
        text.drop_last()
    } else {
        text
    }
}

/// `text` without the slash that it ends in, if it does.
pub fn trim_final_slash<'a>(text: &'a str) -> (res: &'a str)
    ensures
        res@ == without_final_slash(text@),
{
    let bytes = text.as_bytes();
    let ghost k = text@.len() - 1;
    proof {
        lemma_encode_positive(text@);
        lemma_byte_offset_ends(text@);
        if text@.len() > 0 && text@.last() == '/' {
            lemma_slash_byte(text@, k);
        }
    }
    if bytes.len() > 0 && bytes[bytes.len() - 1] == 0x2f {
        proof {
            let last = lemma_byte_slash(text@, bytes@.len() - 1);
            if last < k {
                lemma_byte_offset_monotone(text@, last + 1, text@.len() as int);
                lemma_slash_byte(text@, last);
            }
            assert(text@.take(k) =~= text@.drop_last());
        }
        head_at(text, bytes.len() - 1, Ghost(k))
    } else {
        text
    }
}

/// The two texts in a row.
pub fn concat(a: &str, b: &str) -> (res: String)
    ensures
        res@ == a@ + b@,
{
    let mut res: String = a.to_owned();
    res.append(b);
    res
}

/// Whether a slash stands in `text`.
pub fn has_slash(text: &str) -> (res: bool)
    ensures
        res == (last_slash(text@) is Some),
{
    through_last_slash(text).is_some()
}

} // verus!
