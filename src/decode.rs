//! Percent-decoding of link targets.
use vstd::prelude::*;

verus! {

/// The value of an ASCII hex digit.
pub open spec fn hex_val(c: char) -> Option<u8> {
    if '0' <= c <= '9' {
        Some((c as u32 - '0' as u32) as u8)
    } else if 'a' <= c <= 'f' {
        Some((c as u32 - 'a' as u32 + 10) as u8)
    } else if 'A' <= c <= 'F' {
        Some((c as u32 - 'A' as u32 + 10) as u8)
    } else {
        None
    }
}

/// The value of a hex digit, if `c` is one.
pub fn hex_nibble(c: char) -> (r: Option<u8>)
    ensures
        r == hex_val(c),
        r matches Some(x) ==> x < 16,
{
    if '0' <= c && c <= '9' {
        Some((c as u32 - '0' as u32) as u8)
    } else if 'a' <= c && c <= 'f' {
        Some((c as u32 - 'a' as u32 + 10) as u8)
    } else if 'A' <= c && c <= 'F' {
        Some((c as u32 - 'A' as u32 + 10) as u8)
    } else {
        None
    }
}

/// The UTF-8 encoding of one character.
pub open spec fn utf8_of(c: char) -> Seq<u8> {
    let n = c as u32;
    if n < 0x80 {
        seq![n as u8]
    } else if n < 0x800 {
        seq![(0xC0 + n / 64) as u8, (0x80 + n % 64) as u8]
    } else if n < 0x10000 {
        seq![(0xE0 + n / 4096) as u8, (0x80 + (n / 64) % 64) as u8, (0x80 + n % 64) as u8]
    } else {
        seq![
            (0xF0 + n / 262144) as u8,
            (0x80 + (n / 4096) % 64) as u8,
            (0x80 + (n / 64) % 64) as u8,
            (0x80 + n % 64) as u8,
        ]
    }
}

/// Appends the UTF-8 encoding of `c`.
pub fn push_utf8(out: &mut Vec<u8>, c: char)
    ensures
        final(out)@ == old(out)@ + utf8_of(c),
{
    let n = c as u32;
    if n < 0x80 {
        out.push(n as u8);
    } else if n < 0x800 {
        out.push((0xC0 + n / 64) as u8);
        out.push((0x80 + n % 64) as u8);
    } else if n < 0x10000 {
        out.push((0xE0 + n / 4096) as u8);
        out.push((0x80 + (n / 64) % 64) as u8);
        out.push((0x80 + n % 64) as u8);
    } else {
        out.push((0xF0 + n / 262144) as u8);
        out.push((0x80 + (n / 4096) % 64) as u8);
        out.push((0x80 + (n / 64) % 64) as u8);
        out.push((0x80 + n % 64) as u8);
    }
    assert(final(out)@ =~= old(out)@ + utf8_of(c));
}

/// The bytes of `s` with each `%` and two hex digits turned into that byte, and
/// every other character kept as its UTF-8 bytes.
pub open spec fn pct_decode(s: Seq<char>) -> Seq<u8>
    decreases s.len(),
{
    if s.len() == 0 {
        Seq::empty()
    } else if s.len() > 2 && s[0] == '%' && hex_val(s[1]) is Some && hex_val(s[2]) is Some {
        seq![(hex_val(s[1])->0 * 16 + hex_val(s[2])->0) as u8] + pct_decode(s.skip(3))
    } else {
        utf8_of(s[0]) + pct_decode(s.skip(1))
    }
}

/// What `String::from_utf8_lossy` makes of a byte sequence.
pub uninterp spec fn utf8_lossy(b: Seq<u8>) -> Seq<char>;

/// Relies on `String::from_utf8_lossy`: valid UTF-8 comes back as the text it
/// encodes, each invalid sequence as U+FFFD; so bytes below 0x80 are the ASCII
/// characters of the same values.
#[verifier::external_body]
fn lossy_string(b: &Vec<u8>) -> (r: String)
    ensures
        r@ == utf8_lossy(b@),
        (forall|i: int| 0 <= i < b@.len() ==> b@[i] < 0x80) ==> (r@.len() == b@.len() && forall|
            i: int,
        |
            0 <= i < b@.len() ==> r@[i] as u32 == b@[i] as u32),
{
    String::from_utf8_lossy(b).into_owned()
}

/// ASCII text without `%` decodes to its own bytes.
proof fn lemma_plain_ascii_bytes(s: Seq<char>)
    requires
        forall|i: int| 0 <= i < s.len() ==> (s[i] as u32) < 128 && s[i] != '%',
    ensures
        pct_decode(s).len() == s.len(),
        forall|i: int| 0 <= i < s.len() ==> pct_decode(s)[i] as u32 == s[i] as u32,
    decreases s.len(),
{
    if s.len() > 0 {
        let t = s.skip(1);
        assert forall|i: int| 0 <= i < t.len() implies (t[i] as u32) < 128 && t[i] != '%' by {
            assert(t[i] == s[i + 1]);
        }
        lemma_plain_ascii_bytes(t);
        assert forall|i: int| 0 <= i < s.len() implies pct_decode(s)[i] as u32 == s[i] as u32 by {
            if i > 0 {
                assert(pct_decode(s)[i] == pct_decode(t)[i - 1]);
                assert(t[i - 1] == s[i]);
            }
        }
    }
}

/// Plain ASCII text without `%` is its own decoding.
pub open spec fn plain_ascii(s: Seq<char>) -> bool {
    forall|i: int| 0 <= i < s.len() ==> (s[i] as u32) < 128 && s[i] != '%'
}

/// Decodes `%XX` escapes into bytes and reads the bytes as UTF-8, replacing what is
/// not valid UTF-8. Plain ASCII text without `%` comes back unchanged.
pub fn decode_percent_chars(v: &Vec<char>) -> (r: Vec<char>)
    ensures
        r@ == utf8_lossy(pct_decode(v@)),
        plain_ascii(v@) ==> r@ == v@,
{
    let mut out: Vec<u8> = Vec::new();
    let mut i: usize = 0;
    assert(v@.skip(0) =~= v@);
    while i < v.len()
        invariant
            i <= v.len(),
            out@ + pct_decode(v@.skip(i as int)) == pct_decode(v@),
        decreases v.len() - i,
    {
        let ghost rest = v@.skip(i as int);
        let ghost before = out@;
        if v[i] == '%' && v.len() > 2 && i < v.len() - 2 {
            match (hex_nibble(v[i + 1]), hex_nibble(v[i + 2])) {
                (Some(high), Some(low)) => {
                    assert(rest[0] == v@[i as int] && rest[1] == v@[i + 1] && rest[2] == v@[i + 2]);
                    assert(rest.skip(3) =~= v@.skip(i + 3));
                    assert(high * 16 + low < 256) by (nonlinear_arith)
                        requires
                            high < 16,
                            low < 16,
                    ;
                    out.push(high * 16 + low);
                    assert(out@ + pct_decode(v@.skip(i + 3)) =~= before + pct_decode(rest));
                    i += 3;
                    continue;
                },
                _ => {},
            }
        }
        assert(rest[0] == v@[i as int]);
        assert(rest.skip(1) =~= v@.skip(i + 1));
        push_utf8(&mut out, v[i]);
        assert(out@ + pct_decode(v@.skip(i + 1)) =~= before + pct_decode(rest));
        i += 1;
    }
    assert(out@ + pct_decode(v@.skip(i as int)) =~= out@);
    proof {
        if plain_ascii(v@) {
            lemma_plain_ascii_bytes(v@);
        }
    }
    let r = crate::text::chars_of(&lossy_string(&out));
    proof {
        if plain_ascii(v@) {
            assert forall|i: int| 0 <= i < out@.len() implies out@[i] < 0x80 by {
                assert(out@[i] as u32 == v@[i] as u32);
            }
            assert forall|i: int| 0 <= i < r@.len() implies r@[i] == v@[i] by {
                assert(r@[i] as u32 == out@[i] as u32);
                vstd::utf8::char_u32_cast(r@[i], r@[i] as u32);
                vstd::utf8::char_u32_cast(v@[i], v@[i] as u32);
            }
            assert(r@ =~= v@);
        }
    }
    r
}

/// Decodes `%XX` escapes in `value`, as UTF-8 bytes.
pub fn decode_percent_sequences(value: &str) -> (r: String)
    ensures
        r@ == utf8_lossy(pct_decode(value@)),
        plain_ascii(value@) ==> r@ == value@,
{
    crate::text::string_of(&decode_percent_chars(&crate::text::chars_of(value)))
}

} // verus!
