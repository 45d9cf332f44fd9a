//! ASCII text held in bytes, and its reading into strings.
use vstd::prelude::*;
use vstd::utf8::is_ascii_chars;

verus! {

/// Every byte is below `0x80`.
pub open spec fn all_ascii(bytes: Seq<u8>) -> bool {
    forall|i: int| 0 <= i < bytes.len() ==> bytes[i] < 0x80
}

/// The characters that ASCII bytes stand for, one per byte.
pub open spec fn ascii_text(bytes: Seq<u8>) -> Seq<char> {
    Seq::new(bytes.len(), |i: int| bytes[i] as char)
}

/// The bytes that hold ASCII characters, one per character.
pub open spec fn ascii_bytes(text: Seq<char>) -> Seq<u8> {
    Seq::new(text.len(), |i: int| text[i] as u8)
}

/// Writing ASCII text as bytes and reading the bytes back gives the text.
pub proof fn lemma_text_round_trip(text: Seq<char>)
    requires
        is_ascii_chars(text),
    ensures
        all_ascii(ascii_bytes(text)),
        ascii_text(ascii_bytes(text)) == text,
{
    assert forall|i: int| 0 <= i < text.len() implies (text[i] as u8) < 0x80 && (text[i] as u8) as char
        == text[i] by {
        assert('\0' <= text[i] <= '\u{7f}');
    }
    assert(ascii_text(ascii_bytes(text)) =~= text);
}

/// The bytes of an ASCII string.
pub fn bytes_of_ascii(s: &str) -> (b: &[u8])
    requires
        is_ascii_chars(s@),
    ensures
        b@ == ascii_bytes(s@),
{
    broadcast use vstd::string::is_ascii_spec_bytes;

    let b = s.as_bytes();
    proof {
        assert(vstd::string::is_ascii(s));
        assert(b@ =~= ascii_bytes(s@));
    }
    b
}

/// A partial parse that goes on: `prefix` is what has been read, `rest` the
/// outcome of reading the remainder.
pub open spec fn prepend<T>(prefix: Seq<T>, rest: Result<(Seq<T>, int), int>) -> Result<
    (Seq<T>, int),
    int,
> {
    match rest {
        Ok((items, end)) => Ok((prefix + items, end)),
        Err(at) => Err(at),
    }
}

/// Reading one more item before the remainder is reading it after the
/// prefix.
pub proof fn lemma_prepend_push<T>(prefix: Seq<T>, item: T, rest: Result<(Seq<T>, int), int>)
    ensures
        prepend(prefix, prepend(seq![item], rest)) == prepend(prefix.push(item), rest),
{
    match rest {
        Ok((items, end)) => {
            assert(prefix + (seq![item] + items) =~= prefix.push(item) + items);
        },
        Err(_) => {},
    }
}

/// Appends one character to a string: `String::push` of the standard
/// library. The contract claims what its documentation says, that the string
/// afterwards is the string before followed by the character.
#[verifier::external_body]
pub(crate) fn push_char(s: &mut String, c: char)
    ensures
        final(s)@ == old(s)@.push(c),
{
    s.push(c)
}

/// Reads the ASCII bytes `bytes[from..to]` into a string.
pub fn ascii_string(bytes: &[u8], from: usize, to: usize) -> (s: String)
    requires
        from <= to <= bytes@.len(),
        all_ascii(bytes@.subrange(from as int, to as int)),
    ensures
        s@ == ascii_text(bytes@.subrange(from as int, to as int)),
{
    let mut s = String::new();
    let mut i: usize = from;
    while i < to
        invariant
            from <= i <= to <= bytes@.len(),
            s@ == ascii_text(bytes@.subrange(from as int, i as int)),
        decreases to - i,
    {
        let b: u8 = bytes[i];
        proof {
            assert(bytes@.subrange(from as int, i + 1) =~= bytes@.subrange(
                from as int,
                i as int,
            ).push(b));
        }
        push_char(&mut s, b as char);
        i = i + 1;
        proof {
            assert(s@ =~= ascii_text(bytes@.subrange(from as int, i as int)));
        }
    }
    s
}

/// Tells whether every byte of `bytes[from..to]` is ASCII.
pub fn is_ascii_range(bytes: &[u8], from: usize, to: usize) -> (r: bool)
    requires
        from <= to <= bytes@.len(),
    ensures
        r == all_ascii(bytes@.subrange(from as int, to as int)),
{
    let mut i: usize = from;
    while i < to
        invariant
            from <= i <= to <= bytes@.len(),
            all_ascii(bytes@.subrange(from as int, i as int)),
        decreases to - i,
    {
        if bytes[i] >= 0x80 {
            proof {
                assert(bytes@.subrange(from as int, to as int)[i - from] == bytes@[i as int]);
            }
            return false;
        }
        i = i + 1;
        proof {
            assert forall|j: int| 0 <= j < i - from implies bytes@.subrange(
                from as int,
                i as int,
            )[j] < 0x80 by {
                if j < i - 1 - from {
                    assert(bytes@.subrange(from as int, i - 1)[j] < 0x80);
                }
            }
        }
    }
    true
}

/// Tells whether `bytes` holds `pattern` at offset `at`.
pub fn holds_at(bytes: &[u8], at: usize, pattern: &[u8]) -> (r: bool)
    requires
        at + pattern@.len() <= bytes@.len(),
    ensures
        r == (bytes@.subrange(at as int, at + pattern@.len()) == pattern@),
{
    let n: usize = pattern.len();
    let total: usize = bytes.len();
    let mut i: usize = 0;
    while i < n
        invariant
            n == pattern@.len(),
            total == bytes@.len(),
            at + n <= bytes@.len(),
            i <= n,
            forall|j: int| 0 <= j < i ==> bytes@[at + j] == pattern@[j],
        decreases n - i,
    {
        if bytes[at + i] != pattern[i] {
            proof {
                assert(bytes@.subrange(at as int, at + n)[i as int] != pattern@[i as int]);
            }
            return false;
        }
        i = i + 1;
    }
    proof {
        assert(bytes@.subrange(at as int, at + n) =~= pattern@);
    }
    true
}

/// The position of the first zero byte, or the length without one.
pub open spec fn spec_nul_end(bytes: Seq<u8>) -> int
    decreases bytes.len(),
{
    if bytes.len() == 0 {
        0
    } else if bytes[0] == 0 {
        0
    } else {
        1 + spec_nul_end(bytes.drop_first())
    }
}

/// The bytes before the first zero byte; all of them where there is none.
pub open spec fn until_nul(bytes: Seq<u8>) -> Seq<u8> {
    bytes.take(spec_nul_end(bytes))
}

/// The first zero byte lies within the bytes, no byte before it is zero,
/// and a byte at that position is.
pub proof fn lemma_nul_end(bytes: Seq<u8>)
    ensures
        0 <= spec_nul_end(bytes) <= bytes.len(),
        forall|k: int| 0 <= k < spec_nul_end(bytes) ==> bytes[k] != 0,
        spec_nul_end(bytes) < bytes.len() ==> bytes[spec_nul_end(bytes)] == 0,
    decreases bytes.len(),
{
    if bytes.len() > 0 && bytes[0] != 0 {
        let rest = bytes.drop_first();
        lemma_nul_end(rest);
        assert forall|k: int| 0 <= k < spec_nul_end(bytes) implies bytes[k] != 0 by {
            if k > 0 {
                assert(bytes[k] == rest[k - 1]);
            }
        }
    }
}

/// A position that holds a zero byte after bytes that are not zero is the
/// position of the first zero byte; so is the length where no byte is zero.
pub proof fn lemma_nul_end_is(bytes: Seq<u8>, at: int)
    requires
        0 <= at <= bytes.len(),
        forall|k: int| 0 <= k < at ==> bytes[k] != 0,
        at < bytes.len() ==> bytes[at] == 0,
    ensures
        spec_nul_end(bytes) == at,
{
    lemma_nul_end(bytes);
    let e = spec_nul_end(bytes);
    if e < at {
        assert(bytes[e] != 0);
    } else if at < e {
        assert(bytes[at] != 0);
    }
}

/// The bytes before the first zero byte.
pub fn cut_at_nul(bytes: &[u8]) -> (r: &[u8])
    ensures
        r@ == until_nul(bytes@),
{
    let n: usize = bytes.len();
    let mut i: usize = 0;
    while i < n && bytes[i] != 0
        invariant
            n == bytes@.len(),
            i <= n,
            forall|k: int| 0 <= k < i ==> bytes@[k] != 0,
        decreases n - i,
    {
        i = i + 1;
    }
    proof {
        lemma_nul_end_is(bytes@, i as int);
    }
    vstd::slice::slice_subrange(bytes, 0, i)
}

} // verus!
