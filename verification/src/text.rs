//! The bytes of the protocol: its two fixed lines, how a display name is cut
//! out of what a client sent, and how a chat line is put together.

use vstd::prelude::*;
use vstd::slice::{slice_subrange, slice_to_vec};
use vstd::string::{StrSliceExecFns, StringSliceAdditionalSpecFns};
use vstd::utf8::valid_utf8;

verus! {

/// The largest number of bytes that one read takes from a socket.
pub const READ_CAPACITY: usize = 256;

/// What every client is sent first.
pub open spec fn greeting() -> Seq<u8> {
    "Please enter your name: ".spec_bytes()
}

/// What a client is sent once it has a name.
pub open spec fn welcome() -> Seq<u8> {
    "Welcome, you can start sending messages.\n".spec_bytes()
}

/// What stands between the sender's name and the message.
pub open spec fn separator() -> Seq<u8> {
    ": ".spec_bytes()
}

/// The line that the other clients receive when `name` sends `message`.
pub open spec fn chat_line(name: Seq<u8>, message: Seq<u8>) -> Seq<u8> {
    name + separator() + message
}

/// The bytes that count as whitespace round a name: tab, line feed, form
/// feed, carriage return and space.
pub open spec fn is_space(b: u8) -> bool {
    b == 0x09 || b == 0x0a || b == 0x0c || b == 0x0d || b == 0x20
}

/// `s` without the whitespace at its start.
pub open spec fn trim_start(s: Seq<u8>) -> Seq<u8>
    decreases s.len(),
{
    if s.len() > 0 && is_space(s.first()) {
        trim_start(s.drop_first())
    } else {
        s
    }
}

/// `s` without the whitespace at its end.
pub open spec fn trim_end(s: Seq<u8>) -> Seq<u8>
    decreases s.len(),
{
    if s.len() > 0 && is_space(s.last()) {
        trim_end(s.drop_last())
    } else {
        s
    }
}

/// `s` without the whitespace round it.
pub open spec fn trimmed(s: Seq<u8>) -> Seq<u8> {
    trim_end(trim_start(s))
}

/// The fixed lines are plain ASCII, one byte for each character.
pub proof fn lemma_fixed_lines()
    ensures
        greeting().len() == 24,
        welcome().len() == 41,
        separator() == seq![0x3au8, 0x20u8],
{
    reveal_strlit("Please enter your name: ");
    reveal_strlit("Welcome, you can start sending messages.\n");
    reveal_strlit(": ");
    vstd::utf8::is_ascii_chars_encode_utf8("Please enter your name: "@);
    vstd::utf8::is_ascii_chars_encode_utf8("Welcome, you can start sending messages.\n"@);
    vstd::utf8::is_ascii_chars_encode_utf8(": "@);
    assert(separator() =~= seq![0x3au8, 0x20u8]);
}

/// The greeting, ready to be queued.
pub fn greeting_line() -> (line: Vec<u8>)
    ensures
        line@ == greeting(),
{
    "Please enter your name: ".as_bytes_vec()
}

/// The welcome, ready to be queued.
pub fn welcome_line() -> (line: Vec<u8>)
    ensures
        line@ == welcome(),
{
    "Welcome, you can start sending messages.\n".as_bytes_vec()
}

/// Whether `b` is one of the whitespace bytes.
pub fn is_whitespace(b: u8) -> (yes: bool)
    ensures
        yes == is_space(b),
{
    b == 0x09 || b == 0x0a || b == 0x0c || b == 0x0d || b == 0x20
}

/// Stripping the start of `s` is the same as stripping what is left of it
/// after `k` bytes of whitespace.
proof fn lemma_trim_start_skip(s: Seq<u8>, k: int)
    requires
        0 <= k <= s.len(),
        forall|i: int| 0 <= i < k ==> is_space(#[trigger] s[i]),
    ensures
        trim_start(s) == trim_start(s.skip(k)),
    decreases k,
{
    if k == 0 {
        assert(s.skip(0) =~= s);
    } else {
        assert(is_space(s[0]));
        lemma_trim_start_skip(s.drop_first(), k - 1);
        assert(s.drop_first().skip(k - 1) =~= s.skip(k));
    }
}

/// Stripping the end of `s` is the same as stripping its first `k` bytes,
/// where only whitespace follows them.
proof fn lemma_trim_end_take(s: Seq<u8>, k: int)
    requires
        0 <= k <= s.len(),
        forall|i: int| k <= i < s.len() ==> is_space(#[trigger] s[i]),
    ensures
        trim_end(s) == trim_end(s.take(k)),
    decreases s.len() - k,
{
    if k == s.len() {
        assert(s.take(k) =~= s);
    } else {
        assert(is_space(s[s.len() - 1]));
        lemma_trim_end_take(s.drop_last(), k);
        assert(s.drop_last().take(k) =~= s.take(k));
    }
}

/// How much whitespace stands at the start of `s`.
proof fn lemma_trim_start_bound(s: Seq<u8>) -> (a: int)
    ensures
        0 <= a <= s.len(),
        trim_start(s) == s.skip(a),
        forall|i: int| 0 <= i < a ==> is_space(#[trigger] s[i]),
        a < s.len() ==> !is_space(s[a]),
    decreases s.len(),
{
    if s.len() > 0 && is_space(s.first()) {
        let rest = s.drop_first();
        let b = lemma_trim_start_bound(rest);
        assert(rest.skip(b) =~= s.skip(b + 1));
        assert forall|i: int| 0 <= i < b + 1 implies is_space(#[trigger] s[i]) by {
            if i > 0 {
                assert(s[i] == rest[i - 1]);
            }
        }
        if b + 1 < s.len() {
            assert(s[b + 1] == rest[b]);
        }
        b + 1
    } else {
        assert(s.skip(0) =~= s);
        0
    }
}

/// Where the whitespace at the end of `s` starts.
proof fn lemma_trim_end_bound(s: Seq<u8>) -> (b: int)
    ensures
        0 <= b <= s.len(),
        trim_end(s) == s.take(b),
        forall|i: int| b <= i < s.len() ==> is_space(#[trigger] s[i]),
        0 < b ==> !is_space(s[b - 1]),
    decreases s.len(),
{
    if s.len() > 0 && is_space(s.last()) {
        let rest = s.drop_last();
        let b = lemma_trim_end_bound(rest);
        assert(rest.take(b) =~= s.take(b));
        assert forall|i: int| b <= i < s.len() implies is_space(#[trigger] s[i]) by {
            if i < s.len() - 1 {
                assert(s[i] == rest[i]);
            }
        }
        if 0 < b {
            assert(s[b - 1] == rest[b - 1]);
        }
        b
    } else {
        assert(s.take(s.len() as int) =~= s);
        s.len() as int
    }
}

/// What is left of `s` without the whitespace round it is the piece of `s`
/// between two places: only whitespace stands before the first and from the
/// second on, and the piece, where it is not empty, starts and ends with a
/// byte that is no whitespace.
pub proof fn law_trimmed(s: Seq<u8>) -> (bounds: (int, int))
    ensures
        0 <= bounds.0 <= bounds.1 <= s.len(),
        trimmed(s) == s.subrange(bounds.0, bounds.1),
        forall|i: int| 0 <= i < bounds.0 ==> is_space(#[trigger] s[i]),
        forall|i: int| bounds.1 <= i < s.len() ==> is_space(#[trigger] s[i]),
        bounds.0 < bounds.1 ==> !is_space(s[bounds.0]) && !is_space(s[bounds.1 - 1]),
{
    let a = lemma_trim_start_bound(s);
    let rest = s.skip(a);
    let kept = lemma_trim_end_bound(rest);
    assert(rest.take(kept) =~= s.subrange(a, a + kept));
    assert forall|i: int| a + kept <= i < s.len() implies is_space(#[trigger] s[i]) by {
        assert(s[i] == rest[i - a]);
    }
    if kept > 0 {
        assert(rest[kept - 1] == s[a + kept - 1]);
    }
    (a, a + kept)
}

/// Copies `bytes` without the whitespace round them.
pub fn trim(bytes: &[u8]) -> (out: Vec<u8>)
    ensures
        out@ == trimmed(bytes@),
{
    let len: usize = bytes.len();
    let mut start: usize = 0;
    while start < len && is_whitespace(bytes[start])
        invariant
            len == bytes@.len(),
            start <= len,
            forall|i: int| 0 <= i < start ==> is_space(#[trigger] bytes@[i]),
        decreases len - start,
    {
        start += 1;
    }
    let ghost rest = bytes@.skip(start as int);
    proof {
        lemma_trim_start_skip(bytes@, start as int);
        assert(trim_start(rest) == rest);
    }
    let mut end: usize = len;
    while end > start && is_whitespace(bytes[end - 1])
        invariant
            len == bytes@.len(),
            start <= end <= len,
            forall|i: int| end <= i < len ==> is_space(#[trigger] bytes@[i]),
        decreases end,
    {
        end -= 1;
    }
    proof {
        let kept = end - start;
        assert forall|i: int| kept <= i < rest.len() implies is_space(#[trigger] rest[i]) by {
            assert(rest[i] == bytes@[start + i]);
        }
        lemma_trim_end_take(rest, kept);
        assert(rest.take(kept) =~= bytes@.subrange(start as int, end as int));
        if kept > 0 {
            assert(rest.take(kept).last() == bytes@[end - 1]);
        }
        assert(trim_end(rest.take(kept)) == rest.take(kept));
    }
    slice_to_vec(slice_subrange(bytes, start, end))
}

/// Adds the bytes of `src` to the end of `dst`.
fn append(dst: &mut Vec<u8>, src: &[u8])
    ensures
        final(dst)@ == old(dst)@ + src@,
{
    let mut i: usize = 0;
    while i < src.len()
        invariant
            i <= src@.len(),
            dst@ == old(dst)@ + src@.take(i as int),
        decreases src@.len() - i,
    {
        dst.push(src[i]);
        proof {
            assert(src@.take(i + 1) =~= src@.take(i as int).push(src@[i as int]));
        }
        i += 1;
    }
    proof {
        assert(src@.take(i as int) =~= src@);
    }
}

/// Puts the sender's name before a message.
pub fn format_chat(name: &[u8], message: &[u8]) -> (line: Vec<u8>)
    ensures
        line@ == chat_line(name@, message@),
{
    let mut line = slice_to_vec(name);
    append(&mut line, ": ".as_bytes());
    append(&mut line, message);
    line
}

/// `std::str::from_utf8` returns `Ok` on well-formed UTF-8 and on nothing
/// else; the result here says which of the two it was.
#[verifier::external_body]
pub(crate) fn decodes(bytes: &[u8]) -> (ok: bool)
    ensures
        ok == valid_utf8(bytes@),
{
    match std::str::from_utf8(bytes) {
        Ok(_) => true,
        Err(_) => false,
    }
}

} // verus!
