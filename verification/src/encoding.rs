//! The codec: the seven supported character encodings, their name aliases,
//! and byte-stream decoding (whole buffer or line by line).

use vstd::prelude::*;
use vstd::utf8::decode_first_codepoint;
use vstd::utf8::decode_first_scalar;
use vstd::utf8::decode_utf8;
use vstd::utf8::decode_utf8_split;
use vstd::utf8::is_char_boundary_iff_not_is_continuation_byte;
use vstd::utf8::is_scalar;
use vstd::utf8::length_of_first_scalar;
use vstd::utf8::partial_valid_partial_invalid_utf8;
use vstd::utf8::partial_valid_utf8;
use vstd::utf8::partial_valid_utf8_extend;
use vstd::utf8::pop_first_scalar;
use vstd::utf8::take_first_scalar;
use vstd::utf8::valid_first_scalar;
use vstd::utf8::valid_utf8;
use vstd::utf8::valid_utf8_split;

use crate::chars::push_chars;
use crate::chars::seq_eq_ignore_ascii_case;
use crate::chars::str_eq_ignore_ascii_case;
use crate::Error;

verus! {

/// A character encoding for the byte stream of one parse run.
#[derive(Clone, Copy, Debug, PartialEq, Eq, Structural)]
pub enum Encoding {
    ASCII,
    /// aka ISO-8859-1
    Latin1,
    UTF8,
    UTF16BE,
    UTF16LE,
    UTF32BE,
    UTF32LE,
}

/// The error of resolving an encoding name that matches no known alias.
#[derive(Clone, Copy, Debug, PartialEq, Eq, Structural)]
pub struct IllegalEncoding();

impl Default for Encoding {
    fn default() -> (r: Self)
        ensures
            r == Encoding::UTF8,
    {
        Encoding::UTF8
    }
}

/// The encoding selected by a (case-insensitive) name, `None` for an
/// unrecognized name.  The empty name selects the default, UTF-8.
pub open spec fn spec_encoding_of_name(s: Seq<char>) -> Option<Encoding> {
    if s.len() == 0 || seq_eq_ignore_ascii_case(s, "utf-8"@) || seq_eq_ignore_ascii_case(s, "utf8"@)
        || seq_eq_ignore_ascii_case(s, "windows-65001"@) {
        Some(Encoding::UTF8)
    } else if seq_eq_ignore_ascii_case(s, "ascii"@) || seq_eq_ignore_ascii_case(s, "us-ascii"@)
        || seq_eq_ignore_ascii_case(s, "windows-20127"@) {
        Some(Encoding::ASCII)
    } else if seq_eq_ignore_ascii_case(s, "latin1"@) || seq_eq_ignore_ascii_case(s, "iso-8859-1"@)
        || seq_eq_ignore_ascii_case(s, "iso8859-1"@) || seq_eq_ignore_ascii_case(s, "iso8859_1"@)
        || seq_eq_ignore_ascii_case(s, "windows-28591"@) || seq_eq_ignore_ascii_case(s, "cp819"@) {
        Some(Encoding::Latin1)
    } else if seq_eq_ignore_ascii_case(s, "utf-16le"@) || seq_eq_ignore_ascii_case(s, "utf16le"@)
        || seq_eq_ignore_ascii_case(s, "windows-1200"@) {
        Some(Encoding::UTF16LE)
    } else if seq_eq_ignore_ascii_case(s, "utf-16be"@) || seq_eq_ignore_ascii_case(s, "utf16be"@)
        || seq_eq_ignore_ascii_case(s, "windows-1201"@) {
        Some(Encoding::UTF16BE)
    } else if seq_eq_ignore_ascii_case(s, "utf-32le"@) || seq_eq_ignore_ascii_case(s, "utf32le"@)
        || seq_eq_ignore_ascii_case(s, "windows-12000"@) {
        Some(Encoding::UTF32LE)
    } else if seq_eq_ignore_ascii_case(s, "utf-32be"@) || seq_eq_ignore_ascii_case(s, "utf32be"@)
        || seq_eq_ignore_ascii_case(s, "windows-12001"@) {
        Some(Encoding::UTF32BE)
    } else {
        None
    }
}

impl Encoding {
    /// Resolves an encoding name against the known, case-insensitive
    /// aliases; the empty name selects the default, UTF-8.
    pub fn from_name(name: &str) -> (r: Result<Encoding, IllegalEncoding>)
        ensures
            match spec_encoding_of_name(name@) {
                Some(e) => r == Ok::<Encoding, IllegalEncoding>(e),
                None => r == Err::<Encoding, IllegalEncoding>(IllegalEncoding()),
            },
    {
        if name.is_empty() || str_eq_ignore_ascii_case(name, "utf-8") || str_eq_ignore_ascii_case(
            name,
            "utf8",
        ) || str_eq_ignore_ascii_case(name, "windows-65001") {
            Ok(Encoding::UTF8)
        } else if str_eq_ignore_ascii_case(name, "ascii") || str_eq_ignore_ascii_case(
            name,
            "us-ascii",
        ) || str_eq_ignore_ascii_case(name, "windows-20127") {
            Ok(Encoding::ASCII)
        } else if str_eq_ignore_ascii_case(name, "latin1") || str_eq_ignore_ascii_case(
            name,
            "iso-8859-1",
        ) || str_eq_ignore_ascii_case(name, "iso8859-1") || str_eq_ignore_ascii_case(
            name,
            "iso8859_1",
        ) || str_eq_ignore_ascii_case(name, "windows-28591") || str_eq_ignore_ascii_case(
            name,
            "cp819",
        ) {
            Ok(Encoding::Latin1)
        } else if str_eq_ignore_ascii_case(name, "utf-16le") || str_eq_ignore_ascii_case(
            name,
            "utf16le",
        ) || str_eq_ignore_ascii_case(name, "windows-1200") {
            Ok(Encoding::UTF16LE)
        } else if str_eq_ignore_ascii_case(name, "utf-16be") || str_eq_ignore_ascii_case(
            name,
            "utf16be",
        ) || str_eq_ignore_ascii_case(name, "windows-1201") {
            Ok(Encoding::UTF16BE)
        } else if str_eq_ignore_ascii_case(name, "utf-32le") || str_eq_ignore_ascii_case(
            name,
            "utf32le",
        ) || str_eq_ignore_ascii_case(name, "windows-12000") {
            Ok(Encoding::UTF32LE)
        } else if str_eq_ignore_ascii_case(name, "utf-32be") || str_eq_ignore_ascii_case(
            name,
            "utf32be",
        ) || str_eq_ignore_ascii_case(name, "windows-12001") {
            Ok(Encoding::UTF32BE)
        } else {
            Err(IllegalEncoding())
        }
    }
}

/// The 16-bit unit read from two bytes under the given byte order.
pub open spec fn u16_of_bytes(b0: u8, b1: u8, be: bool) -> u16 {
    if be {
        ((b0 as u16) * 256 + b1 as u16) as u16
    } else {
        ((b1 as u16) * 256 + b0 as u16) as u16
    }
}

/// The 32-bit unit read from four bytes under the given byte order.
pub open spec fn u32_of_bytes(b0: u8, b1: u8, b2: u8, b3: u8, be: bool) -> u32 {
    if be {
        ((b0 as u32) * 0x1000000 + (b1 as u32) * 0x10000 + (b2 as u32) * 0x100 + b3 as u32) as u32
    } else {
        ((b3 as u32) * 0x1000000 + (b2 as u32) * 0x10000 + (b1 as u32) * 0x100 + b0 as u32) as u32
    }
}

/// The scalar value encoded by a UTF-16 surrogate pair.
pub open spec fn utf16_combine(hi: u16, lo: u16) -> u32
    recommends
        0xd800 <= hi <= 0xdbff,
        0xdc00 <= lo <= 0xdfff,
{
    ((hi - 0xd800) * 0x400 + (lo - 0xdc00) + 0x10000) as u32
}

/// Whether every byte is in the 7-bit ASCII range.
pub open spec fn ascii_ok(bytes: Seq<u8>) -> bool {
    forall|i: int| 0 <= i < bytes.len() ==> bytes[i] <= 127
}

/// ASCII (and Latin-1) decoding: each byte is the scalar value of one
/// character.
pub open spec fn decode_byte_chars(bytes: Seq<u8>) -> Seq<char> {
    bytes.map_values(|b: u8| b as char)
}

/// UTF-16 decoding of a whole buffer.  A trailing lone byte is ignored; a
/// low surrogate without a preceding high surrogate, a high surrogate not
/// followed by a low surrogate, and an end of stream in the middle of a
/// surrogate pair are invalid.
pub open spec fn spec_decode_utf16(bytes: Seq<u8>, be: bool) -> Option<Seq<char>>
    decreases bytes.len(),
{
    if bytes.len() < 2 {
        Some(Seq::empty())
    } else {
        let u = u16_of_bytes(bytes[0], bytes[1], be);
        if 0xdc00 <= u && u <= 0xdfff {
            None
        } else if 0xd800 <= u && u <= 0xdbff {
            if bytes.len() < 4 {
                None
            } else {
                let lo = u16_of_bytes(bytes[2], bytes[3], be);
                if !(0xdc00 <= lo && lo <= 0xdfff) {
                    None
                } else {
                    match spec_decode_utf16(bytes.skip(4), be) {
                        Some(rest) => Some(seq![utf16_combine(u, lo) as char] + rest),
                        None => None,
                    }
                }
            }
        } else {
            match spec_decode_utf16(bytes.skip(2), be) {
                Some(rest) => Some(seq![(u as u32) as char] + rest),
                None => None,
            }
        }
    }
}

/// UTF-32 decoding of a whole buffer.  A trailing partial unit is ignored;
/// a unit that is not a Unicode scalar value is invalid.
pub open spec fn spec_decode_utf32(bytes: Seq<u8>, be: bool) -> Option<Seq<char>>
    decreases bytes.len(),
{
    if bytes.len() < 4 {
        Some(Seq::empty())
    } else {
        let v = u32_of_bytes(bytes[0], bytes[1], bytes[2], bytes[3], be);
        if !is_scalar(v) {
            None
        } else {
            match spec_decode_utf32(bytes.skip(4), be) {
                Some(rest) => Some(seq![v as char] + rest),
                None => None,
            }
        }
    }
}

/// The text encoded by the given bytes under the given encoding, or `None`
/// when the bytes do not match the encoding.
pub open spec fn spec_decode(enc: Encoding, bytes: Seq<u8>) -> Option<Seq<char>> {
    match enc {
        Encoding::ASCII => if ascii_ok(bytes) {
            Some(decode_byte_chars(bytes))
        } else {
            None
        },
        Encoding::Latin1 => Some(decode_byte_chars(bytes)),
        Encoding::UTF8 => if valid_utf8(bytes) {
            Some(decode_utf8(bytes))
        } else {
            None
        },
        Encoding::UTF16BE => spec_decode_utf16(bytes, true),
        Encoding::UTF16LE => spec_decode_utf16(bytes, false),
        Encoding::UTF32BE => spec_decode_utf32(bytes, true),
        Encoding::UTF32LE => spec_decode_utf32(bytes, false),
    }
}

/// Prefix a decoded chunk onto the outcome of decoding the rest.
pub open spec fn prepend_chars(p: Seq<char>, rest: Option<Seq<char>>) -> Option<Seq<char>> {
    match rest {
        Some(t) => Some(p + t),
        None => None,
    }
}

fn decode_ascii_vec(bytes: &[u8]) -> (r: Result<Vec<char>, Error>)
    ensures
        ascii_ok(bytes@) ==> (r matches Ok(v) && v@ == decode_byte_chars(bytes@)),
        !ascii_ok(bytes@) ==> r == Err::<Vec<char>, Error>(Error::InvalidData),
{
    let mut out: Vec<char> = Vec::new();
    let mut i: usize = 0;
    while i < bytes.len()
        invariant
            i <= bytes@.len(),
            out@.len() == i,
            forall|k: int| 0 <= k < i ==> bytes@[k] <= 127,
            forall|k: int| 0 <= k < i ==> out@[k] == bytes@[k] as char,
        decreases bytes@.len() - i,
    {
        let b = bytes[i];
        if b > 127 {
            proof {
                assert(!ascii_ok(bytes@));
            }
            return Err(Error::InvalidData);
        }
        out.push(b as char);
        i = i + 1;
    }
    proof {
        assert(out@ =~= decode_byte_chars(bytes@));
    }
    Ok(out)
}

fn decode_latin1_vec(bytes: &[u8]) -> (r: Vec<char>)
    ensures
        r@ == decode_byte_chars(bytes@),
{
    let mut out: Vec<char> = Vec::new();
    let mut i: usize = 0;
    while i < bytes.len()
        invariant
            i <= bytes@.len(),
            out@.len() == i,
            forall|k: int| 0 <= k < i ==> out@[k] == bytes@[k] as char,
        decreases bytes@.len() - i,
    {
        out.push(bytes[i] as char);
        i = i + 1;
    }
    proof {
        assert(out@ =~= decode_byte_chars(bytes@));
    }
    out
}

/// Combines two bytes into one 16-bit unit under the given byte order.
fn u16_unit(b0: u8, b1: u8, be: bool) -> (u: u16)
    ensures
        u == u16_of_bytes(b0, b1, be),
{
    if be {
        (b0 as u16) * 256 + b1 as u16
    } else {
        (b1 as u16) * 256 + b0 as u16
    }
}

/// Combines four bytes into one 32-bit unit under the given byte order.
fn u32_unit(b0: u8, b1: u8, b2: u8, b3: u8, be: bool) -> (u: u32)
    ensures
        u == u32_of_bytes(b0, b1, b2, b3, be),
{
    if be {
        (b0 as u32) * 0x1000000 + (b1 as u32) * 0x10000 + (b2 as u32) * 0x100 + b3 as u32
    } else {
        (b3 as u32) * 0x1000000 + (b2 as u32) * 0x10000 + (b1 as u32) * 0x100 + b0 as u32
    }
}

fn decode_utf16_vec(bytes: &[u8], be: bool) -> (r: Result<Vec<char>, Error>)
    ensures
        match spec_decode_utf16(bytes@, be) {
            Some(cs) => r matches Ok(v) && v@ == cs,
            None => r == Err::<Vec<char>, Error>(Error::InvalidData),
        },
{
    let mut out: Vec<char> = Vec::new();
    let mut i: usize = 0;
    proof {
        assert(bytes@.skip(0) =~= bytes@);
        match spec_decode_utf16(bytes@, be) {
            Some(t) => {
                assert(Seq::<char>::empty() + t =~= t);
            },
            None => {},
        }
    }
    while bytes.len() - i >= 2
        invariant
            i <= bytes@.len(),
            spec_decode_utf16(bytes@, be) == prepend_chars(
                out@,
                spec_decode_utf16(bytes@.skip(i as int), be),
            ),
        decreases bytes@.len() - i,
    {
        let ghost rem = bytes@.skip(i as int);
        let ghost out_old = out@;
        proof {
            assert(rem.len() == bytes@.len() - i);
            assert(rem[0] == bytes@[i as int]);
            assert(rem[1] == bytes@[i + 1]);
        }
        let u = u16_unit(bytes[i], bytes[i + 1], be);
        if 0xdc00 <= u && u <= 0xdfff {
            return Err(Error::InvalidData);
        } else if 0xd800 <= u && u <= 0xdbff {
            if bytes.len() - i < 4 {
                return Err(Error::InvalidData);
            }
            proof {
                assert(rem[2] == bytes@[i + 2]);
                assert(rem[3] == bytes@[i + 3]);
            }
            let lo = u16_unit(bytes[i + 2], bytes[i + 3], be);
            if !(0xdc00 <= lo && lo <= 0xdfff) {
                return Err(Error::InvalidData);
            }
            let cp: u32 = ((u - 0xd800) as u32) * 0x400 + ((lo - 0xdc00) as u32) + 0x10000;
            proof {
                assert(cp == utf16_combine(u, lo));
                assert(is_scalar(cp));
            }
            let c = match char::from_u32(cp) {
                Some(c) => c,
                None => {
                    proof {
                        assert(false);
                    }
                    ' '
                },
            };
            out.push(c);
            proof {
                let rem2 = bytes@.skip(i + 4 as int);
                assert(rem.skip(4) =~= rem2);
                assert(spec_decode_utf16(rem, be) == prepend_chars(
                    seq![c],
                    spec_decode_utf16(rem2, be),
                ));
                match spec_decode_utf16(rem2, be) {
                    Some(t) => {
                        assert(out_old + (seq![c] + t) =~= out@ + t);
                    },
                    None => {},
                }
            }
            i = i + 4;
        } else {
            let c = match char::from_u32(u as u32) {
                Some(c) => c,
                None => {
                    proof {
                        assert(false);
                    }
                    ' '
                },
            };
            out.push(c);
            proof {
                let rem2 = bytes@.skip(i + 2 as int);
                assert(rem.skip(2) =~= rem2);
                assert(spec_decode_utf16(rem, be) == prepend_chars(
                    seq![c],
                    spec_decode_utf16(rem2, be),
                ));
                match spec_decode_utf16(rem2, be) {
                    Some(t) => {
                        assert(out_old + (seq![c] + t) =~= out@ + t);
                    },
                    None => {},
                }
            }
            i = i + 2;
        }
    }
    proof {
        assert(bytes@.skip(i as int).len() < 2);
        assert(spec_decode_utf16(bytes@.skip(i as int), be) == Some(Seq::<char>::empty()));
        assert(out@ + Seq::<char>::empty() =~= out@);
    }
    Ok(out)
}

fn decode_utf32_vec(bytes: &[u8], be: bool) -> (r: Result<Vec<char>, Error>)
    ensures
        match spec_decode_utf32(bytes@, be) {
            Some(cs) => r matches Ok(v) && v@ == cs,
            None => r == Err::<Vec<char>, Error>(Error::InvalidData),
        },
{
    let mut out: Vec<char> = Vec::new();
    let mut i: usize = 0;
    proof {
        assert(bytes@.skip(0) =~= bytes@);
        match spec_decode_utf32(bytes@, be) {
            Some(t) => {
                assert(Seq::<char>::empty() + t =~= t);
            },
            None => {},
        }
    }
    while bytes.len() - i >= 4
        invariant
            i <= bytes@.len(),
            spec_decode_utf32(bytes@, be) == prepend_chars(
                out@,
                spec_decode_utf32(bytes@.skip(i as int), be),
            ),
        decreases bytes@.len() - i,
    {
        let ghost rem = bytes@.skip(i as int);
        let ghost out_old = out@;
        proof {
            assert(rem.len() == bytes@.len() - i);
            assert(rem[0] == bytes@[i as int]);
            assert(rem[1] == bytes@[i + 1]);
            assert(rem[2] == bytes@[i + 2]);
            assert(rem[3] == bytes@[i + 3]);
        }
        let v = u32_unit(bytes[i], bytes[i + 1], bytes[i + 2], bytes[i + 3], be);
        let c = match char::from_u32(v) {
            Some(c) => c,
            None => {
                return Err(Error::InvalidData);
            },
        };
        out.push(c);
        proof {
            let rem2 = bytes@.skip(i + 4 as int);
            assert(rem.skip(4) =~= rem2);
            assert(spec_decode_utf32(rem, be) == prepend_chars(
                seq![c],
                spec_decode_utf32(rem2, be),
            ));
            match spec_decode_utf32(rem2, be) {
                Some(t) => {
                    assert(out_old + (seq![c] + t) =~= out@ + t);
                },
                None => {},
            }
        }
        i = i + 4;
    }
    proof {
        assert(bytes@.skip(i as int).len() < 4);
        assert(spec_decode_utf32(bytes@.skip(i as int), be) == Some(Seq::<char>::empty()));
        assert(out@ + Seq::<char>::empty() =~= out@);
    }
    Ok(out)
}

/// Extending a valid UTF-8 prefix by the first scalar of the rest keeps it
/// valid and appends exactly that scalar's character to the decoded text.
proof fn lemma_utf8_step(bytes: Seq<u8>, i: int)
    requires
        0 <= i < bytes.len(),
        valid_utf8(bytes.subrange(0, i)),
        valid_first_scalar(bytes.subrange(i, bytes.len() as int)),
    ensures
        ({
            let suf = bytes.subrange(i, bytes.len() as int);
            let w = length_of_first_scalar(suf);
            &&& 1 <= w <= suf.len()
            &&& valid_utf8(bytes.subrange(0, i + w))
            &&& decode_utf8(bytes.subrange(0, i + w)) == decode_utf8(bytes.subrange(0, i)).push(
                decode_first_scalar(suf) as char,
            )
        }),
{
    let suf = bytes.subrange(i, bytes.len() as int);
    let w = length_of_first_scalar(suf);
    assert(1 <= w <= suf.len());
    assert(partial_valid_utf8(bytes, i));
    partial_valid_utf8_extend(bytes, i);
    assert(valid_utf8(bytes.subrange(0, i + w)));
    let ext = bytes.subrange(0, i + w);
    assert(!vstd::utf8::is_continuation_byte(ext[i]));
    is_char_boundary_iff_not_is_continuation_byte(ext, i);
    valid_utf8_split(ext, i);
    decode_utf8_split(ext, i);
    let chunk = ext.subrange(i, ext.len() as int);
    assert(ext.subrange(0, i) =~= bytes.subrange(0, i));
    assert(chunk =~= take_first_scalar(suf));
    assert(chunk[0] == suf[0]);
    assert(decode_first_codepoint(chunk) == decode_first_codepoint(suf));
    assert(length_of_first_scalar(chunk) == w);
    assert(valid_utf8(chunk));
    assert(valid_first_scalar(chunk));
    assert(pop_first_scalar(chunk) =~= Seq::<u8>::empty());
    assert(decode_utf8(chunk) == seq![decode_first_scalar(chunk) as char] + decode_utf8(
        pop_first_scalar(chunk),
    ));
    assert(decode_utf8(pop_first_scalar(chunk)) == Seq::<char>::empty());
    assert(decode_utf8(chunk) =~= seq![decode_first_scalar(suf) as char]);
    assert(decode_utf8(ext) =~= decode_utf8(bytes.subrange(0, i)).push(
        decode_first_scalar(suf) as char,
    ));
}

fn decode_utf8_vec(bytes: &[u8]) -> (r: Result<Vec<char>, Error>)
    ensures
        valid_utf8(bytes@) ==> (r matches Ok(v) && v@ == decode_utf8(bytes@)),
        !valid_utf8(bytes@) ==> r == Err::<Vec<char>, Error>(Error::InvalidData),
{
    let n = bytes.len();
    let mut out: Vec<char> = Vec::new();
    let mut i: usize = 0;
    proof {
        assert(bytes@.subrange(0, 0) =~= Seq::<u8>::empty());
    }
    while i < n
        invariant
            i <= n,
            n == bytes@.len(),
            valid_utf8(bytes@.subrange(0, i as int)),
            out@ == decode_utf8(bytes@.subrange(0, i as int)),
        decreases n - i,
    {
        let ghost suf = bytes@.subrange(i as int, bytes@.len() as int);
        proof {
            assert(suf.len() == n - i);
            assert(forall|k: int| 0 <= k < suf.len() ==> suf[k] == bytes@[i + k]);
        }
        let b0 = bytes[i];
        let w: usize;
        let cp: u32;
        if b0 < 0x80 {
            w = 1;
            cp = (b0 & 0x7f) as u32;
            proof {
                assert((b0 & 0x7f) <= 0x7f) by (bit_vector);
            }
        } else if 0xc0 <= b0 && b0 <= 0xdf {
            if n - i < 2 || !(0x80 <= bytes[i + 1] && bytes[i + 1] <= 0xbf) {
                proof {
                    assert(!valid_first_scalar(suf));
                    assert(!valid_utf8(suf));
                    partial_valid_partial_invalid_utf8(bytes@, i as int);
                }
                return Err(Error::InvalidData);
            }
            let b1 = bytes[i + 1];
            w = 2;
            cp = (((b1 & 0x3f) as u32) | (((b0 & 0x1f) as u32) << 6)) as u32;
            proof {
                assert(cp == vstd::utf8::codepoint_width_2(b0, b1)) by (bit_vector)
                    requires
                        cp == (((b1 & 0x3f) as u32) | (((b0 & 0x1f) as u32) << 6)) as u32,
                ;
                assert(cp <= 0x7ff) by (bit_vector)
                    requires
                        cp == (((b1 & 0x3f) as u32) | (((b0 & 0x1f) as u32) << 6)) as u32,
                ;
            }
            if cp < 0x80 {
                proof {
                    assert(!valid_first_scalar(suf));
                    assert(!valid_utf8(suf));
                    partial_valid_partial_invalid_utf8(bytes@, i as int);
                }
                return Err(Error::InvalidData);
            }
        } else if 0xe0 <= b0 && b0 <= 0xef {
            if n - i < 3 || !(0x80 <= bytes[i + 1] && bytes[i + 1] <= 0xbf) || !(0x80 <= bytes[i
                + 2] && bytes[i + 2] <= 0xbf) {
                proof {
                    assert(!valid_first_scalar(suf));
                    assert(!valid_utf8(suf));
                    partial_valid_partial_invalid_utf8(bytes@, i as int);
                }
                return Err(Error::InvalidData);
            }
            let b1 = bytes[i + 1];
            let b2 = bytes[i + 2];
            w = 3;
            cp = (((b2 & 0x3f) as u32) | (((b1 & 0x3f) as u32) << 6) | (((b0 & 0x0f) as u32)
                << 12)) as u32;
            proof {
                assert(cp == vstd::utf8::codepoint_width_3(b0, b1, b2) && cp <= 0xffff)
                    by (bit_vector)
                    requires
                        cp == (((b2 & 0x3f) as u32) | (((b1 & 0x3f) as u32) << 6) | (((b0
                            & 0x0f) as u32) << 12)) as u32,
                ;
            }
            if cp < 0x800 || (0xd800 <= cp && cp <= 0xdfff) {
                proof {
                    assert(!valid_first_scalar(suf));
                    assert(!valid_utf8(suf));
                    partial_valid_partial_invalid_utf8(bytes@, i as int);
                }
                return Err(Error::InvalidData);
            }
        } else if 0xf0 <= b0 && b0 <= 0xf7 {
            if n - i < 4 || !(0x80 <= bytes[i + 1] && bytes[i + 1] <= 0xbf) || !(0x80 <= bytes[i
                + 2] && bytes[i + 2] <= 0xbf) || !(0x80 <= bytes[i + 3] && bytes[i + 3] <= 0xbf) {
                proof {
                    assert(!valid_first_scalar(suf));
                    assert(!valid_utf8(suf));
                    partial_valid_partial_invalid_utf8(bytes@, i as int);
                }
                return Err(Error::InvalidData);
            }
            let b1 = bytes[i + 1];
            let b2 = bytes[i + 2];
            let b3 = bytes[i + 3];
            w = 4;
            cp = (((b3 & 0x3f) as u32) | (((b2 & 0x3f) as u32) << 6) | (((b1 & 0x3f) as u32) << 12)
                | (((b0 & 0x07) as u32) << 18)) as u32;
            proof {
                assert(cp == vstd::utf8::codepoint_width_4(b0, b1, b2, b3) && cp <= 0x1fffff)
                    by (bit_vector)
                    requires
                        cp == (((b3 & 0x3f) as u32) | (((b2 & 0x3f) as u32) << 6) | (((b1
                            & 0x3f) as u32) << 12) | (((b0 & 0x07) as u32) << 18)) as u32,
                ;
            }
            if cp < 0x10000 || cp > 0x10ffff {
                proof {
                    assert(!valid_first_scalar(suf));
                    assert(!valid_utf8(suf));
                    partial_valid_partial_invalid_utf8(bytes@, i as int);
                }
                return Err(Error::InvalidData);
            }
        } else {
            proof {
                assert(!valid_first_scalar(suf));
                assert(!valid_utf8(suf));
                partial_valid_partial_invalid_utf8(bytes@, i as int);
            }
            return Err(Error::InvalidData);
        }
        proof {
            assert(valid_first_scalar(suf));
            assert(decode_first_scalar(suf) == cp);
            assert(length_of_first_scalar(suf) == w);
            assert(is_scalar(cp));
            lemma_utf8_step(bytes@, i as int);
        }
        let c = match char::from_u32(cp) {
            Some(c) => c,
            None => {
                proof {
                    assert(false);
                }
                ' '
            },
        };
        out.push(c);
        i = i + w;
    }
    proof {
        assert(bytes@.subrange(0, n as int) =~= bytes@);
    }
    Ok(out)
}

/// The two bytes of one 16-bit unit under the given byte order.
pub open spec fn u16_bytes(u: u16, be: bool) -> Seq<u8> {
    if be {
        seq![((u >> 8) & 0xff) as u8, (u & 0xff) as u8]
    } else {
        seq![(u & 0xff) as u8, ((u >> 8) & 0xff) as u8]
    }
}

/// The four bytes of one 32-bit unit under the given byte order.
pub open spec fn u32_bytes(v: u32, be: bool) -> Seq<u8> {
    if be {
        seq![
            ((v >> 24) & 0xff) as u8,
            ((v >> 16) & 0xff) as u8,
            ((v >> 8) & 0xff) as u8,
            (v & 0xff) as u8,
        ]
    } else {
        seq![
            (v & 0xff) as u8,
            ((v >> 8) & 0xff) as u8,
            ((v >> 16) & 0xff) as u8,
            ((v >> 24) & 0xff) as u8,
        ]
    }
}

/// Whether every character is in the 7-bit ASCII range.
pub open spec fn ascii_encodable(s: Seq<char>) -> bool {
    forall|i: int| 0 <= i < s.len() ==> (s[i] as u32) <= 0x7f
}

/// Whether every character is in the Latin-1 range.
pub open spec fn latin1_encodable(s: Seq<char>) -> bool {
    forall|i: int| 0 <= i < s.len() ==> (s[i] as u32) <= 0xff
}

/// The UTF-16 encoding of a character sequence: one unit per character in
/// the basic plane, a surrogate pair for the rest.
pub open spec fn spec_encode_utf16(s: Seq<char>, be: bool) -> Seq<u8>
    decreases s.len(),
{
    if s.len() == 0 {
        Seq::empty()
    } else {
        let v = s[0] as u32;
        let unit = if v < 0x10000 {
            u16_bytes(v as u16, be)
        } else {
            u16_bytes((0xd800 + ((v - 0x10000) as u32 >> 10)) as u16, be) + u16_bytes(
                (0xdc00 + ((v - 0x10000) as u32 & 0x3ff)) as u16,
                be,
            )
        };
        unit + spec_encode_utf16(s.drop_first(), be)
    }
}

/// The UTF-32 encoding of a character sequence: each scalar value as one
/// 32-bit unit.
pub open spec fn spec_encode_utf32(s: Seq<char>, be: bool) -> Seq<u8>
    decreases s.len(),
{
    if s.len() == 0 {
        Seq::empty()
    } else {
        u32_bytes(s[0] as u32, be) + spec_encode_utf32(s.drop_first(), be)
    }
}

/// The bytes that encode the given text under the given encoding, or
/// `None` when a character is outside the encoding's range.
pub open spec fn spec_encode(enc: Encoding, s: Seq<char>) -> Option<Seq<u8>> {
    match enc {
        Encoding::ASCII => if ascii_encodable(s) {
            Some(s.map_values(|c: char| (c as u32) as u8))
        } else {
            None
        },
        Encoding::Latin1 => if latin1_encodable(s) {
            Some(s.map_values(|c: char| (c as u32) as u8))
        } else {
            None
        },
        Encoding::UTF8 => Some(vstd::utf8::encode_utf8(s)),
        Encoding::UTF16BE => Some(spec_encode_utf16(s, true)),
        Encoding::UTF16LE => Some(spec_encode_utf16(s, false)),
        Encoding::UTF32BE => Some(spec_encode_utf32(s, true)),
        Encoding::UTF32LE => Some(spec_encode_utf32(s, false)),
    }
}

impl Encoding {
    /// Decodes an entire byte buffer into the characters it encodes.
    pub fn decode(&self, bytes: &[u8]) -> (r: Result<Vec<char>, Error>)
        ensures
            match spec_decode(*self, bytes@) {
                Some(cs) => r matches Ok(v) && v@ == cs,
                None => r == Err::<Vec<char>, Error>(Error::InvalidData),
            },
    {
        match self {
            Encoding::ASCII => decode_ascii_vec(bytes),
            Encoding::Latin1 => Ok(decode_latin1_vec(bytes)),
            Encoding::UTF8 => decode_utf8_vec(bytes),
            Encoding::UTF16BE => decode_utf16_vec(bytes, true),
            Encoding::UTF16LE => decode_utf16_vec(bytes, false),
            Encoding::UTF32BE => decode_utf32_vec(bytes, true),
            Encoding::UTF32LE => decode_utf32_vec(bytes, false),
        }
    }

    /// Encodes a text into the bytes of this encoding; fails exactly when a
    /// character is outside the range of ASCII or Latin-1.
    pub fn encode(&self, text: &str) -> (r: Result<Vec<u8>, Error>)
        ensures
            match spec_encode(*self, text@) {
                Some(bs) => r matches Ok(v) && v@ == bs,
                None => r == Err::<Vec<u8>, Error>(Error::InvalidData),
            },
    {
        let chars = crate::chars::str_to_chars(text);
        match self {
            Encoding::ASCII => encode_byte_chars_vec(&chars, 0x7f),
            Encoding::Latin1 => encode_byte_chars_vec(&chars, 0xff),
            Encoding::UTF8 => Ok(encode_utf8_vec(&chars)),
            Encoding::UTF16BE => Ok(encode_utf16_vec(&chars, true)),
            Encoding::UTF16LE => Ok(encode_utf16_vec(&chars, false)),
            Encoding::UTF32BE => Ok(encode_utf32_vec(&chars, true)),
            Encoding::UTF32LE => Ok(encode_utf32_vec(&chars, false)),
        }
    }

    /// Decodes the entire buffer and appends the text to `buf`; the result
    /// is the count of bytes consumed, which is all of them.
    pub fn read_to_string(&self, bytes: &[u8], buf: &mut String) -> (r: Result<usize, Error>)
        ensures
            match spec_decode(*self, bytes@) {
                Some(cs) => r == Ok::<usize, Error>(bytes@.len() as usize) && final(buf)@ == old(
                    buf,
                )@ + cs,
                None => r == Err::<usize, Error>(Error::InvalidData) && final(buf)@ == old(buf)@,
            },
    {
        match self.decode(bytes) {
            Ok(v) => {
                push_chars(buf, &v);
                Ok(bytes.len())
            },
            Err(e) => Err(e),
        }
    }
}

fn encode_byte_chars_vec(text: &Vec<char>, limit: u32) -> (r: Result<Vec<u8>, Error>)
    ensures
        (forall|i: int| 0 <= i < text@.len() ==> (text@[i] as u32) <= limit) ==> (r matches Ok(v)
            && v@ == text@.map_values(|c: char| (c as u32) as u8)),
        !(forall|i: int| 0 <= i < text@.len() ==> (text@[i] as u32) <= limit) ==> r == Err::<
            Vec<u8>,
            Error,
        >(Error::InvalidData),
{
    let mut out: Vec<u8> = Vec::new();
    let mut i: usize = 0;
    while i < text.len()
        invariant
            i <= text@.len(),
            out@.len() == i,
            forall|k: int| 0 <= k < i ==> (text@[k] as u32) <= limit,
            forall|k: int| 0 <= k < i ==> out@[k] == (text@[k] as u32) as u8,
        decreases text@.len() - i,
    {
        let v = text[i] as u32;
        if v > limit {
            return Err(Error::InvalidData);
        }
        out.push(v as u8);
        i = i + 1;
    }
    proof {
        assert(out@ =~= text@.map_values(|c: char| (c as u32) as u8));
    }
    Ok(out)
}

/// Appends the two bytes of one 16-bit unit.
fn push_u16(out: &mut Vec<u8>, u: u16, be: bool)
    ensures
        final(out)@ == old(out)@ + u16_bytes(u, be),
{
    if be {
        out.push(((u >> 8) & 0xff) as u8);
        out.push((u & 0xff) as u8);
    } else {
        out.push((u & 0xff) as u8);
        out.push(((u >> 8) & 0xff) as u8);
    }
    proof {
        assert(out@ =~= old(out)@ + u16_bytes(u, be));
    }
}

/// Appends the four bytes of one 32-bit unit.
fn push_u32(out: &mut Vec<u8>, v: u32, be: bool)
    ensures
        final(out)@ == old(out)@ + u32_bytes(v, be),
{
    if be {
        out.push(((v >> 24) & 0xff) as u8);
        out.push(((v >> 16) & 0xff) as u8);
        out.push(((v >> 8) & 0xff) as u8);
        out.push((v & 0xff) as u8);
    } else {
        out.push((v & 0xff) as u8);
        out.push(((v >> 8) & 0xff) as u8);
        out.push(((v >> 16) & 0xff) as u8);
        out.push(((v >> 24) & 0xff) as u8);
    }
    proof {
        assert(out@ =~= old(out)@ + u32_bytes(v, be));
    }
}

fn encode_utf16_vec(text: &Vec<char>, be: bool) -> (r: Vec<u8>)
    ensures
        r@ == spec_encode_utf16(text@, be),
{
    let mut out: Vec<u8> = Vec::new();
    let mut i: usize = 0;
    proof {
        assert(text@.skip(0) =~= text@);
    }
    while i < text.len()
        invariant
            i <= text@.len(),
            spec_encode_utf16(text@, be) == out@ + spec_encode_utf16(text@.skip(i as int), be),
        decreases text@.len() - i,
    {
        let ghost rem = text@.skip(i as int);
        let ghost out_old = out@;
        proof {
            assert(rem[0] == text@[i as int]);
            assert(rem.drop_first() =~= text@.skip(i + 1 as int));
        }
        let c = text[i];
        let v = c as u32;
        if v < 0x10000 {
            push_u16(&mut out, v as u16, be);
            proof {
                assert(spec_encode_utf16(rem, be) == u16_bytes(v as u16, be) + spec_encode_utf16(
                    text@.skip(i + 1 as int),
                    be,
                ));
                assert(out_old + (u16_bytes(v as u16, be) + spec_encode_utf16(
                    text@.skip(i + 1 as int),
                    be,
                )) =~= out@ + spec_encode_utf16(text@.skip(i + 1 as int), be));
            }
        } else {
            let d: u32 = v - 0x10000;
            proof {
                vstd::utf8::char_is_scalar(c);
                assert((d >> 10) <= 0x3ff && (d & 0x3ff) <= 0x3ff) by (bit_vector)
                    requires
                        d <= 0xfffff,
                ;
            }
            let hi: u16 = (0xd800 + (d >> 10)) as u16;
            let lo: u16 = (0xdc00 + (d & 0x3ff)) as u16;
            push_u16(&mut out, hi, be);
            push_u16(&mut out, lo, be);
            proof {
                let unit = u16_bytes(hi, be) + u16_bytes(lo, be);
                assert(spec_encode_utf16(rem, be) == unit + spec_encode_utf16(
                    text@.skip(i + 1 as int),
                    be,
                ));
                assert(out_old + (unit + spec_encode_utf16(text@.skip(i + 1 as int), be)) =~= out@
                    + spec_encode_utf16(text@.skip(i + 1 as int), be));
            }
        }
        i = i + 1;
    }
    proof {
        assert(text@.skip(i as int).len() == 0);
        assert(spec_encode_utf16(text@.skip(i as int), be) == Seq::<u8>::empty());
        assert(out@ + Seq::<u8>::empty() =~= out@);
    }
    out
}

fn encode_utf32_vec(text: &Vec<char>, be: bool) -> (r: Vec<u8>)
    ensures
        r@ == spec_encode_utf32(text@, be),
{
    let mut out: Vec<u8> = Vec::new();
    let mut i: usize = 0;
    proof {
        assert(text@.skip(0) =~= text@);
    }
    while i < text.len()
        invariant
            i <= text@.len(),
            spec_encode_utf32(text@, be) == out@ + spec_encode_utf32(text@.skip(i as int), be),
        decreases text@.len() - i,
    {
        let ghost rem = text@.skip(i as int);
        let ghost out_old = out@;
        proof {
            assert(rem[0] == text@[i as int]);
            assert(rem.drop_first() =~= text@.skip(i + 1 as int));
        }
        let v = text[i] as u32;
        push_u32(&mut out, v, be);
        proof {
            assert(spec_encode_utf32(rem, be) == u32_bytes(v, be) + spec_encode_utf32(
                text@.skip(i + 1 as int),
                be,
            ));
            assert(out_old + (u32_bytes(v, be) + spec_encode_utf32(text@.skip(i + 1 as int), be))
                =~= out@ + spec_encode_utf32(text@.skip(i + 1 as int), be));
        }
        i = i + 1;
    }
    proof {
        assert(text@.skip(i as int).len() == 0);
        assert(spec_encode_utf32(text@.skip(i as int), be) == Seq::<u8>::empty());
        assert(out@ + Seq::<u8>::empty() =~= out@);
    }
    out
}

fn encode_utf8_vec(text: &Vec<char>) -> (r: Vec<u8>)
    ensures
        r@ == vstd::utf8::encode_utf8(text@),
{
    let mut out: Vec<u8> = Vec::new();
    let mut i: usize = 0;
    proof {
        assert(text@.skip(0) =~= text@);
    }
    while i < text.len()
        invariant
            i <= text@.len(),
            vstd::utf8::encode_utf8(text@) == out@ + vstd::utf8::encode_utf8(
                text@.skip(i as int),
            ),
        decreases text@.len() - i,
    {
        let ghost rem = text@.skip(i as int);
        let ghost out_old = out@;
        proof {
            assert(rem[0] == text@[i as int]);
            assert(rem.drop_first() =~= text@.skip(i + 1 as int));
        }
        let c = text[i];
        let v = c as u32;
        proof {
            vstd::utf8::char_is_scalar(c);
        }
        if v <= 0x7f {
            out.push((v & 0x7f) as u8);
            proof {
                assert(((v & 0x7f) as u8) == vstd::utf8::leading_byte_width_1(v)) by (bit_vector);
            }
        } else if v <= 0x7ff {
            out.push((0xc0 | ((v >> 6) & 0x1f)) as u8);
            out.push((0x80 | (v & 0x3f)) as u8);
            proof {
                assert(((0xc0 | ((v >> 6) & 0x1f)) as u8) == vstd::utf8::leading_byte_width_2(v)
                    && ((0x80 | (v & 0x3f)) as u8) == vstd::utf8::last_continuation_byte(v))
                    by (bit_vector);
            }
        } else if v <= 0xffff {
            out.push((0xe0 | ((v >> 12) & 0x0f)) as u8);
            out.push((0x80 | ((v >> 6) & 0x3f)) as u8);
            out.push((0x80 | (v & 0x3f)) as u8);
            proof {
                assert(((0xe0 | ((v >> 12) & 0x0f)) as u8) == vstd::utf8::leading_byte_width_3(v)
                    && ((0x80 | ((v >> 6) & 0x3f)) as u8)
                    == vstd::utf8::second_last_continuation_byte(v) && ((0x80 | (v
                    & 0x3f)) as u8) == vstd::utf8::last_continuation_byte(v)) by (bit_vector);
            }
        } else {
            out.push((0xf0 | ((v >> 18) & 0x07)) as u8);
            out.push((0x80 | ((v >> 12) & 0x3f)) as u8);
            out.push((0x80 | ((v >> 6) & 0x3f)) as u8);
            out.push((0x80 | (v & 0x3f)) as u8);
            proof {
                assert(((0xf0 | ((v >> 18) & 0x07)) as u8) == vstd::utf8::leading_byte_width_4(v)
                    && ((0x80 | ((v >> 12) & 0x3f)) as u8)
                    == vstd::utf8::third_last_continuation_byte(v) && ((0x80 | ((v >> 6)
                    & 0x3f)) as u8) == vstd::utf8::second_last_continuation_byte(v) && ((0x80 | (v
                    & 0x3f)) as u8) == vstd::utf8::last_continuation_byte(v)) by (bit_vector);
            }
        }
        proof {
            assert(vstd::utf8::encode_utf8(rem) == vstd::utf8::encode_scalar(v)
                + vstd::utf8::encode_utf8(text@.skip(i + 1 as int)));
            assert(out@ =~= out_old + vstd::utf8::encode_scalar(v));
            assert(out_old + (vstd::utf8::encode_scalar(v) + vstd::utf8::encode_utf8(
                text@.skip(i + 1 as int),
            )) =~= out@ + vstd::utf8::encode_utf8(text@.skip(i + 1 as int)));
        }
        i = i + 1;
    }
    proof {
        assert(text@.skip(i as int).len() == 0);
        assert(vstd::utf8::encode_utf8(text@.skip(i as int)) == Seq::<u8>::empty());
        assert(out@ + Seq::<u8>::empty() =~= out@);
    }
    out
}

/// One ASCII line: characters up to and including the first `\n`, with the
/// count of bytes consumed; a byte above 127 is invalid.
pub open spec fn spec_line_ascii(bytes: Seq<u8>) -> Option<(Seq<char>, int)>
    decreases bytes.len(),
{
    if bytes.len() == 0 {
        Some((Seq::empty(), 0))
    } else if bytes[0] > 127 {
        None
    } else if bytes[0] == 0x0a {
        Some((seq!['\n'], 1))
    } else {
        match spec_line_ascii(bytes.skip(1)) {
            Some(p) => Some((seq![bytes[0] as char] + p.0, p.1 + 1)),
            None => None,
        }
    }
}

/// One Latin-1 line: characters up to and including the first `\n`, with
/// the count of bytes consumed; never invalid.
pub open spec fn spec_line_latin1(bytes: Seq<u8>) -> Option<(Seq<char>, int)>
    decreases bytes.len(),
{
    if bytes.len() == 0 {
        Some((Seq::empty(), 0))
    } else if bytes[0] == 0x0a {
        Some((seq!['\n'], 1))
    } else {
        match spec_line_latin1(bytes.skip(1)) {
            Some(p) => Some((seq![bytes[0] as char] + p.0, p.1 + 1)),
            None => None,
        }
    }
}

/// One UTF-16 line: characters up to and including the first `\n` unit,
/// with the count of bytes consumed.  The newline unit is recognized before
/// surrogate validation; a trailing lone byte ends the line.
pub open spec fn spec_line_utf16(bytes: Seq<u8>, be: bool) -> Option<(Seq<char>, int)>
    decreases bytes.len(),
{
    if bytes.len() < 2 {
        Some((Seq::empty(), 0))
    } else {
        let u = u16_of_bytes(bytes[0], bytes[1], be);
        if u == 0x0a {
            Some((seq!['\n'], 2))
        } else if 0xdc00 <= u && u <= 0xdfff {
            None
        } else if 0xd800 <= u && u <= 0xdbff {
            if bytes.len() < 4 {
                None
            } else {
                let lo = u16_of_bytes(bytes[2], bytes[3], be);
                if !(0xdc00 <= lo && lo <= 0xdfff) {
                    None
                } else {
                    match spec_line_utf16(bytes.skip(4), be) {
                        Some(p) => Some((seq![utf16_combine(u, lo) as char] + p.0, p.1 + 4)),
                        None => None,
                    }
                }
            }
        } else {
            match spec_line_utf16(bytes.skip(2), be) {
                Some(p) => Some((seq![(u as u32) as char] + p.0, p.1 + 2)),
                None => None,
            }
        }
    }
}

/// One UTF-32 line: characters up to and including the first `\n` unit,
/// with the count of bytes consumed.  Units are validated before the
/// newline check; a trailing partial unit ends the line.
pub open spec fn spec_line_utf32(bytes: Seq<u8>, be: bool) -> Option<(Seq<char>, int)>
    decreases bytes.len(),
{
    if bytes.len() < 4 {
        Some((Seq::empty(), 0))
    } else {
        let v = u32_of_bytes(bytes[0], bytes[1], bytes[2], bytes[3], be);
        if !is_scalar(v) {
            None
        } else if v == 0x0a {
            Some((seq!['\n'], 4))
        } else {
            match spec_line_utf32(bytes.skip(4), be) {
                Some(p) => Some((seq![v as char] + p.0, p.1 + 4)),
                None => None,
            }
        }
    }
}

/// The byte length of the first line of a UTF-8 buffer: everything up to
/// and including the first `\n` byte, or the whole buffer.
pub open spec fn utf8_line_len(bytes: Seq<u8>) -> int
    decreases bytes.len(),
{
    if bytes.len() == 0 {
        0
    } else if bytes[0] == 0x0a {
        1
    } else {
        1 + utf8_line_len(bytes.skip(1))
    }
}

/// One UTF-8 line: the chunk up to and including the first `\n` byte,
/// decoded; invalid when that chunk is not valid UTF-8.
pub open spec fn spec_line_utf8(bytes: Seq<u8>) -> Option<(Seq<char>, int)> {
    let chunk = bytes.take(utf8_line_len(bytes));
    if valid_utf8(chunk) {
        Some((decode_utf8(chunk), chunk.len() as int))
    } else {
        None
    }
}

/// One line read under the given encoding: the characters up to and
/// including the first `\n`, and the count of bytes consumed.
pub open spec fn spec_read_line(enc: Encoding, bytes: Seq<u8>) -> Option<(Seq<char>, int)> {
    match enc {
        Encoding::ASCII => spec_line_ascii(bytes),
        Encoding::Latin1 => spec_line_latin1(bytes),
        Encoding::UTF8 => spec_line_utf8(bytes),
        Encoding::UTF16BE => spec_line_utf16(bytes, true),
        Encoding::UTF16LE => spec_line_utf16(bytes, false),
        Encoding::UTF32BE => spec_line_utf32(bytes, true),
        Encoding::UTF32LE => spec_line_utf32(bytes, false),
    }
}

/// Prefix consumed characters and bytes onto the outcome of reading the
/// rest of a line.
pub open spec fn prepend_line(p: Seq<char>, n: int, rest: Option<(Seq<char>, int)>) -> Option<
    (Seq<char>, int),
> {
    match rest {
        Some(q) => Some((p + q.0, n + q.1)),
        None => None,
    }
}

/// The bytes of a 16-bit unit reassemble into that unit.
proof fn lemma_u16_unpack(u: u16, be: bool)
    ensures
        u16_bytes(u, be).len() == 2,
        u16_of_bytes(u16_bytes(u, be)[0], u16_bytes(u, be)[1], be) == u,
{
    let b0 = ((u >> 8) & 0xff) as u8;
    let b1 = (u & 0xff) as u8;
    assert((b0 as u16) * 256 + (b1 as u16) == u) by (bit_vector)
        requires
            b0 == ((u >> 8) & 0xff) as u8,
            b1 == (u & 0xff) as u8,
    ;
}

/// The bytes of a 32-bit unit reassemble into that unit.
proof fn lemma_u32_unpack(v: u32, be: bool)
    ensures
        u32_bytes(v, be).len() == 4,
        u32_of_bytes(
            u32_bytes(v, be)[0],
            u32_bytes(v, be)[1],
            u32_bytes(v, be)[2],
            u32_bytes(v, be)[3],
            be,
        ) == v,
{
    let b0 = ((v >> 24) & 0xff) as u8;
    let b1 = ((v >> 16) & 0xff) as u8;
    let b2 = ((v >> 8) & 0xff) as u8;
    let b3 = (v & 0xff) as u8;
    assert((b0 as u32) * 0x1000000 + (b1 as u32) * 0x10000 + (b2 as u32) * 0x100 + (b3 as u32)
        == v) by (bit_vector)
        requires
            b0 == ((v >> 24) & 0xff) as u8,
            b1 == ((v >> 16) & 0xff) as u8,
            b2 == ((v >> 8) & 0xff) as u8,
            b3 == (v & 0xff) as u8,
    ;
}

proof fn lemma_utf16_roundtrip(s: Seq<char>, be: bool)
    ensures
        spec_decode_utf16(spec_encode_utf16(s, be), be) == Some(s),
    decreases s.len(),
{
    if s.len() == 0 {
        assert(spec_encode_utf16(s, be).len() == 0);
        assert(spec_decode_utf16(spec_encode_utf16(s, be), be) == Some(Seq::<char>::empty()));
        assert(Seq::<char>::empty() =~= s);
    } else {
        let c = s[0];
        let v = c as u32;
        vstd::utf8::char_is_scalar(c);
        vstd::utf8::char_u32_cast(c, v);
        let bytes = spec_encode_utf16(s, be);
        let rest = spec_encode_utf16(s.drop_first(), be);
        lemma_utf16_roundtrip(s.drop_first(), be);
        if v < 0x10000 {
            let u = v as u16;
            let ub = u16_bytes(u, be);
            lemma_u16_unpack(u, be);
            assert(bytes == ub + rest);
            assert(bytes[0] == ub[0] && bytes[1] == ub[1]);
            assert(u16_of_bytes(bytes[0], bytes[1], be) == u);
            assert(u as u32 == v);
            assert(!(0xd800 <= v && v <= 0xdfff));
            assert(bytes.skip(2) =~= rest);
            assert(spec_decode_utf16(bytes, be) == Some(seq![(u as u32) as char] + s.drop_first()));
            assert(seq![(u as u32) as char] + s.drop_first() =~= s);
        } else {
            let d: u32 = (v - 0x10000) as u32;
            let hi: u16 = (0xd800 + (d >> 10)) as u16;
            let lo: u16 = (0xdc00 + (d & 0x3ff)) as u16;
            assert(0xd800 <= hi && hi <= 0xdbff && 0xdc00 <= lo && lo <= 0xdfff && ((hi as u32)
                - 0xd800) * 0x400 + ((lo as u32) - 0xdc00) + 0x10000 == v) by (bit_vector)
                requires
                    0x10000 <= v <= 0x10ffff,
                    d == (v - 0x10000) as u32,
                    hi == (0xd800 + (d >> 10)) as u16,
                    lo == (0xdc00 + (d & 0x3ff)) as u16,
            ;
            let hb = u16_bytes(hi, be);
            let lb = u16_bytes(lo, be);
            lemma_u16_unpack(hi, be);
            lemma_u16_unpack(lo, be);
            assert(bytes == (hb + lb) + rest);
            assert(bytes[0] == hb[0] && bytes[1] == hb[1] && bytes[2] == lb[0] && bytes[3]
                == lb[1]);
            assert(u16_of_bytes(bytes[0], bytes[1], be) == hi);
            assert(u16_of_bytes(bytes[2], bytes[3], be) == lo);
            assert(utf16_combine(hi, lo) == v);
            assert(bytes.skip(4) =~= rest);
            assert(spec_decode_utf16(bytes, be) == Some(
                seq![utf16_combine(hi, lo) as char] + s.drop_first(),
            ));
            assert(seq![utf16_combine(hi, lo) as char] + s.drop_first() =~= s);
        }
    }
}

proof fn lemma_utf32_roundtrip(s: Seq<char>, be: bool)
    ensures
        spec_decode_utf32(spec_encode_utf32(s, be), be) == Some(s),
    decreases s.len(),
{
    if s.len() == 0 {
        assert(spec_decode_utf32(spec_encode_utf32(s, be), be) == Some(Seq::<char>::empty()));
        assert(Seq::<char>::empty() =~= s);
    } else {
        let c = s[0];
        let v = c as u32;
        vstd::utf8::char_is_scalar(c);
        vstd::utf8::char_u32_cast(c, v);
        let bytes = spec_encode_utf32(s, be);
        let rest = spec_encode_utf32(s.drop_first(), be);
        lemma_utf32_roundtrip(s.drop_first(), be);
        let ub = u32_bytes(v, be);
        lemma_u32_unpack(v, be);
        assert(bytes == ub + rest);
        assert(bytes[0] == ub[0] && bytes[1] == ub[1] && bytes[2] == ub[2] && bytes[3] == ub[3]);
        assert(u32_of_bytes(bytes[0], bytes[1], bytes[2], bytes[3], be) == v);
        assert(bytes.skip(4) =~= rest);
        assert(spec_decode_utf32(bytes, be) == Some(seq![v as char] + s.drop_first()));
        assert(seq![v as char] + s.drop_first() =~= s);
    }
}

proof fn lemma_byte_chars_roundtrip(s: Seq<char>)
    requires
        latin1_encodable(s),
    ensures
        decode_byte_chars(s.map_values(|c: char| (c as u32) as u8)) == s,
{
    let bytes = s.map_values(|c: char| (c as u32) as u8);
    assert forall|i: int| 0 <= i < s.len() implies #[trigger] decode_byte_chars(bytes)[i]
        == s[i] by {
        let c = s[i];
        let b = bytes[i];
        assert(b == (c as u32) as u8);
        assert(b as u32 == c as u32);
        vstd::utf8::char_u32_cast(c, c as u32);
        assert((b as char) == ((b as u32) as char));
        assert(decode_byte_chars(bytes)[i] == b as char);
    }
    assert(decode_byte_chars(bytes) =~= s);
}

/// Reads a whole UTF-16 buffer under the given byte order, appending the
/// text to `out`; returns the count of bytes consumed.
pub fn read_utf16(bytes: &[u8], out: &mut String, be: bool) -> (r: Result<usize, Error>)
    ensures
        match spec_decode_utf16(bytes@, be) {
            Some(cs) => r == Ok::<usize, Error>(bytes@.len() as usize) && final(out)@ == old(out)@
                + cs,
            None => r == Err::<usize, Error>(Error::InvalidData) && final(out)@ == old(out)@,
        },
{
    match decode_utf16_vec(bytes, be) {
        Ok(v) => {
            push_chars(out, &v);
            Ok(bytes.len())
        },
        Err(e) => Err(e),
    }
}

/// Reads a whole UTF-32 buffer under the given byte order, appending the
/// text to `out`; returns the count of bytes consumed.
pub fn read_utf32(bytes: &[u8], out: &mut String, be: bool) -> (r: Result<usize, Error>)
    ensures
        match spec_decode_utf32(bytes@, be) {
            Some(cs) => r == Ok::<usize, Error>(bytes@.len() as usize) && final(out)@ == old(out)@
                + cs,
            None => r == Err::<usize, Error>(Error::InvalidData) && final(out)@ == old(out)@,
        },
{
    match decode_utf32_vec(bytes, be) {
        Ok(v) => {
            push_chars(out, &v);
            Ok(bytes.len())
        },
        Err(e) => Err(e),
    }
}

/// Reads one ASCII line from the start of `bytes`, appending its
/// characters (newline included) to `line`; returns the bytes consumed.
pub fn read_line_ascii(bytes: &[u8], line: &mut String) -> (r: Result<usize, Error>)
    ensures
        match spec_line_ascii(bytes@) {
            Some(p) => r == Ok::<usize, Error>(p.1 as usize) && final(line)@ == old(line)@ + p.0,
            None => r == Err::<usize, Error>(Error::InvalidData) && final(line)@ == old(line)@,
        },
{
    let mut out: Vec<char> = Vec::new();
    let mut i: usize = 0;
    proof {
        assert(bytes@.skip(0) =~= bytes@);
        match spec_line_ascii(bytes@) {
            Some(p) => {
                assert(Seq::<char>::empty() + p.0 =~= p.0);
            },
            None => {},
        }
    }
    while i < bytes.len()
        invariant
            i <= bytes@.len(),
            line@ == old(line)@,
            spec_line_ascii(bytes@) == prepend_line(
                out@,
                i as int,
                spec_line_ascii(bytes@.skip(i as int)),
            ),
        decreases bytes@.len() - i,
    {
        let ghost rem = bytes@.skip(i as int);
        let ghost out_old = out@;
        proof {
            assert(rem[0] == bytes@[i as int]);
        }
        let b = bytes[i];
        if b > 127 {
            return Err(Error::InvalidData);
        }
        if b == 0x0a {
            out.push('\n');
            proof {
                assert(spec_line_ascii(rem) == Some((seq!['\n'], 1int)));
                assert(out_old + seq!['\n'] =~= out@);
            }
            push_chars(line, &out);
            return Ok(i + 1);
        }
        out.push(b as char);
        proof {
            let rem2 = bytes@.skip(i + 1 as int);
            assert(rem.skip(1) =~= rem2);
            match spec_line_ascii(rem2) {
                Some(q) => {
                    assert(out_old + (seq![b as char] + q.0) =~= out@ + q.0);
                },
                None => {},
            }
        }
        i = i + 1;
    }
    proof {
        assert(bytes@.skip(i as int).len() == 0);
        assert(out@ + Seq::<char>::empty() =~= out@);
    }
    push_chars(line, &out);
    Ok(i)
}

/// Reads one Latin-1 line from the start of `bytes`, appending its
/// characters (newline included) to `line`; returns the bytes consumed.
pub fn read_line_latin1(bytes: &[u8], line: &mut String) -> (r: Result<usize, Error>)
    ensures
        match spec_line_latin1(bytes@) {
            Some(p) => r == Ok::<usize, Error>(p.1 as usize) && final(line)@ == old(line)@ + p.0,
            None => r == Err::<usize, Error>(Error::InvalidData) && final(line)@ == old(line)@,
        },
{
    let mut out: Vec<char> = Vec::new();
    let mut i: usize = 0;
    proof {
        assert(bytes@.skip(0) =~= bytes@);
        match spec_line_latin1(bytes@) {
            Some(p) => {
                assert(Seq::<char>::empty() + p.0 =~= p.0);
            },
            None => {},
        }
    }
    while i < bytes.len()
        invariant
            i <= bytes@.len(),
            line@ == old(line)@,
            spec_line_latin1(bytes@) == prepend_line(
                out@,
                i as int,
                spec_line_latin1(bytes@.skip(i as int)),
            ),
        decreases bytes@.len() - i,
    {
        let ghost rem = bytes@.skip(i as int);
        let ghost out_old = out@;
        proof {
            assert(rem[0] == bytes@[i as int]);
        }
        let b = bytes[i];
        if b == 0x0a {
            out.push('\n');
            proof {
                assert(spec_line_latin1(rem) == Some((seq!['\n'], 1int)));
                assert(out_old + seq!['\n'] =~= out@);
            }
            push_chars(line, &out);
            return Ok(i + 1);
        }
        out.push(b as char);
        proof {
            let rem2 = bytes@.skip(i + 1 as int);
            assert(rem.skip(1) =~= rem2);
            match spec_line_latin1(rem2) {
                Some(q) => {
                    assert(out_old + (seq![b as char] + q.0) =~= out@ + q.0);
                },
                None => {},
            }
        }
        i = i + 1;
    }
    proof {
        assert(bytes@.skip(i as int).len() == 0);
        assert(out@ + Seq::<char>::empty() =~= out@);
    }
    push_chars(line, &out);
    Ok(i)
}

/// Reads one UTF-16 line under the given byte order.
#[verifier::rlimit(50)]
pub fn read_line_utf16(bytes: &[u8], line: &mut String, be: bool) -> (r: Result<usize, Error>)
    ensures
        match spec_line_utf16(bytes@, be) {
            Some(p) => r == Ok::<usize, Error>(p.1 as usize) && final(line)@ == old(line)@ + p.0,
            None => r == Err::<usize, Error>(Error::InvalidData) && final(line)@ == old(line)@,
        },
{
    let mut out: Vec<char> = Vec::new();
    let mut i: usize = 0;
    proof {
        assert(bytes@.skip(0) =~= bytes@);
        match spec_line_utf16(bytes@, be) {
            Some(p) => {
                assert(Seq::<char>::empty() + p.0 =~= p.0);
            },
            None => {},
        }
    }
    while bytes.len() - i >= 2
        invariant
            i <= bytes@.len(),
            line@ == old(line)@,
            spec_line_utf16(bytes@, be) == prepend_line(
                out@,
                i as int,
                spec_line_utf16(bytes@.skip(i as int), be),
            ),
        decreases bytes@.len() - i,
    {
        let ghost rem = bytes@.skip(i as int);
        let ghost out_old = out@;
        proof {
            assert(rem[0] == bytes@[i as int]);
            assert(rem[1] == bytes@[i + 1]);
        }
        let u = u16_unit(bytes[i], bytes[i + 1], be);
        if u == 0x0a {
            out.push('\n');
            proof {
                assert(spec_line_utf16(rem, be) == Some((seq!['\n'], 2int)));
                assert(out_old + seq!['\n'] =~= out@);
            }
            push_chars(line, &out);
            return Ok(i + 2);
        }
        if 0xdc00 <= u && u <= 0xdfff {
            return Err(Error::InvalidData);
        }
        if 0xd800 <= u && u <= 0xdbff {
            if bytes.len() - i < 4 {
                return Err(Error::InvalidData);
            }
            proof {
                assert(rem[2] == bytes@[i + 2]);
                assert(rem[3] == bytes@[i + 3]);
            }
            let lo = u16_unit(bytes[i + 2], bytes[i + 3], be);
            if !(0xdc00 <= lo && lo <= 0xdfff) {
                return Err(Error::InvalidData);
            }
            let cp: u32 = ((u - 0xd800) as u32) * 0x400 + ((lo - 0xdc00) as u32) + 0x10000;
            proof {
                assert(cp == utf16_combine(u, lo));
                assert(is_scalar(cp));
            }
            let c = match char::from_u32(cp) {
                Some(c) => c,
                None => {
                    proof {
                        assert(false);
                    }
                    ' '
                },
            };
            out.push(c);
            proof {
                let rem2 = bytes@.skip(i + 4 as int);
                assert(rem.skip(4) =~= rem2);
                match spec_line_utf16(rem2, be) {
                    Some(q) => {
                        assert(out_old + (seq![c] + q.0) =~= out@ + q.0);
                    },
                    None => {},
                }
            }
            i = i + 4;
        } else {
            let c = match char::from_u32(u as u32) {
                Some(c) => c,
                None => {
                    proof {
                        assert(false);
                    }
                    ' '
                },
            };
            out.push(c);
            proof {
                let rem2 = bytes@.skip(i + 2 as int);
                assert(rem.skip(2) =~= rem2);
                match spec_line_utf16(rem2, be) {
                    Some(q) => {
                        assert(out_old + (seq![c] + q.0) =~= out@ + q.0);
                    },
                    None => {},
                }
            }
            i = i + 2;
        }
    }
    proof {
        assert(bytes@.skip(i as int).len() < 2);
        assert(out@ + Seq::<char>::empty() =~= out@);
    }
    push_chars(line, &out);
    Ok(i)
}

/// Reads one big-endian UTF-16 line.
pub fn read_line_utf16be(bytes: &[u8], line: &mut String) -> (r: Result<usize, Error>)
    ensures
        match spec_line_utf16(bytes@, true) {
            Some(p) => r == Ok::<usize, Error>(p.1 as usize) && final(line)@ == old(line)@ + p.0,
            None => r == Err::<usize, Error>(Error::InvalidData) && final(line)@ == old(line)@,
        },
{
    read_line_utf16(bytes, line, true)
}

/// Reads one little-endian UTF-16 line.
pub fn read_line_utf16le(bytes: &[u8], line: &mut String) -> (r: Result<usize, Error>)
    ensures
        match spec_line_utf16(bytes@, false) {
            Some(p) => r == Ok::<usize, Error>(p.1 as usize) && final(line)@ == old(line)@ + p.0,
            None => r == Err::<usize, Error>(Error::InvalidData) && final(line)@ == old(line)@,
        },
{
    read_line_utf16(bytes, line, false)
}

/// Reads one UTF-32 line under the given byte order.
pub fn read_line_utf32(bytes: &[u8], line: &mut String, be: bool) -> (r: Result<usize, Error>)
    ensures
        match spec_line_utf32(bytes@, be) {
            Some(p) => r == Ok::<usize, Error>(p.1 as usize) && final(line)@ == old(line)@ + p.0,
            None => r == Err::<usize, Error>(Error::InvalidData) && final(line)@ == old(line)@,
        },
{
    let mut out: Vec<char> = Vec::new();
    let mut i: usize = 0;
    proof {
        assert(bytes@.skip(0) =~= bytes@);
        match spec_line_utf32(bytes@, be) {
            Some(p) => {
                assert(Seq::<char>::empty() + p.0 =~= p.0);
            },
            None => {},
        }
    }
    while bytes.len() - i >= 4
        invariant
            i <= bytes@.len(),
            line@ == old(line)@,
            spec_line_utf32(bytes@, be) == prepend_line(
                out@,
                i as int,
                spec_line_utf32(bytes@.skip(i as int), be),
            ),
        decreases bytes@.len() - i,
    {
        let ghost rem = bytes@.skip(i as int);
        let ghost out_old = out@;
        proof {
            assert(rem[0] == bytes@[i as int]);
            assert(rem[1] == bytes@[i + 1]);
            assert(rem[2] == bytes@[i + 2]);
            assert(rem[3] == bytes@[i + 3]);
        }
        let v = u32_unit(bytes[i], bytes[i + 1], bytes[i + 2], bytes[i + 3], be);
        let c = match char::from_u32(v) {
            Some(c) => c,
            None => {
                return Err(Error::InvalidData);
            },
        };
        if v == 0x0a {
            out.push('\n');
            proof {
                assert(c == '\n');
                assert(spec_line_utf32(rem, be) == Some((seq!['\n'], 4int)));
                assert(out_old + seq!['\n'] =~= out@);
            }
            push_chars(line, &out);
            return Ok(i + 4);
        }
        out.push(c);
        proof {
            let rem2 = bytes@.skip(i + 4 as int);
            assert(rem.skip(4) =~= rem2);
            match spec_line_utf32(rem2, be) {
                Some(q) => {
                    assert(out_old + (seq![c] + q.0) =~= out@ + q.0);
                },
                None => {},
            }
        }
        i = i + 4;
    }
    proof {
        assert(bytes@.skip(i as int).len() < 4);
        assert(out@ + Seq::<char>::empty() =~= out@);
    }
    push_chars(line, &out);
    Ok(i)
}

/// Reads one big-endian UTF-32 line.
pub fn read_line_utf32be(bytes: &[u8], line: &mut String) -> (r: Result<usize, Error>)
    ensures
        match spec_line_utf32(bytes@, true) {
            Some(p) => r == Ok::<usize, Error>(p.1 as usize) && final(line)@ == old(line)@ + p.0,
            None => r == Err::<usize, Error>(Error::InvalidData) && final(line)@ == old(line)@,
        },
{
    read_line_utf32(bytes, line, true)
}

/// Reads one little-endian UTF-32 line.
pub fn read_line_utf32le(bytes: &[u8], line: &mut String) -> (r: Result<usize, Error>)
    ensures
        match spec_line_utf32(bytes@, false) {
            Some(p) => r == Ok::<usize, Error>(p.1 as usize) && final(line)@ == old(line)@ + p.0,
            None => r == Err::<usize, Error>(Error::InvalidData) && final(line)@ == old(line)@,
        },
{
    read_line_utf32(bytes, line, false)
}

/// The byte length of the first UTF-8 line chunk is delimited by the first
/// `\n` byte.
proof fn lemma_utf8_line_len_of(s: Seq<u8>, e: int)
    requires
        0 <= e <= s.len(),
        forall|j: int| 0 <= j < e ==> s[j] != 0x0a,
        e == s.len() || s[e] == 0x0a,
    ensures
        utf8_line_len(s) == if e == s.len() {
            e
        } else {
            e + 1
        },
    decreases s.len(),
{
    if s.len() == 0 {
    } else if s[0] == 0x0a {
        assert(e == 0);
    } else {
        assert(e >= 1);
        lemma_utf8_line_len_of(s.skip(1), e - 1);
    }
}

/// Reads one UTF-8 line: everything up to and including the first `\n`
/// byte, which must be valid UTF-8.
fn read_line_utf8(bytes: &[u8], line: &mut String) -> (r: Result<usize, Error>)
    ensures
        match spec_line_utf8(bytes@) {
            Some(p) => r == Ok::<usize, Error>(p.1 as usize) && final(line)@ == old(line)@ + p.0,
            None => r == Err::<usize, Error>(Error::InvalidData) && final(line)@ == old(line)@,
        },
{
    let n = bytes.len();
    let mut e: usize = 0;
    while e < n && bytes[e] != 0x0a
        invariant
            e <= n,
            n == bytes@.len(),
            line@ == old(line)@,
            forall|j: int| 0 <= j < e ==> bytes@[j] != 0x0a,
        decreases n - e,
    {
        e = e + 1;
    }
    let end: usize = if e < n {
        e + 1
    } else {
        e
    };
    proof {
        lemma_utf8_line_len_of(bytes@, e as int);
        assert(utf8_line_len(bytes@) == end);
    }
    let mut chunk: Vec<u8> = Vec::new();
    let mut j: usize = 0;
    while j < end
        invariant
            j <= end,
            end <= bytes@.len(),
            line@ == old(line)@,
            chunk@ == bytes@.subrange(0, j as int),
        decreases end - j,
    {
        chunk.push(bytes[j]);
        proof {
            assert(chunk@ =~= bytes@.subrange(0, j + 1 as int));
        }
        j = j + 1;
    }
    proof {
        assert(chunk@ == bytes@.take(utf8_line_len(bytes@)));
    }
    match decode_utf8_vec(chunk.as_slice()) {
        Ok(v) => {
            push_chars(line, &v);
            Ok(end)
        },
        Err(e) => Err(e),
    }
}

impl Encoding {
    /// Reads one line from the start of `bytes` under this encoding,
    /// appending its characters (newline included) to `line`; returns the
    /// count of bytes consumed.
    pub fn read_line(&self, bytes: &[u8], line: &mut String) -> (r: Result<usize, Error>)
        ensures
            match spec_read_line(*self, bytes@) {
                Some(p) => r == Ok::<usize, Error>(p.1 as usize) && final(line)@ == old(line)@
                    + p.0,
                None => r == Err::<usize, Error>(Error::InvalidData) && final(line)@ == old(
                    line,
                )@,
            },
    {
        match self {
            Encoding::UTF8 => read_line_utf8(bytes, line),
            Encoding::ASCII => read_line_ascii(bytes, line),
            Encoding::Latin1 => read_line_latin1(bytes, line),
            Encoding::UTF16LE => read_line_utf16le(bytes, line),
            Encoding::UTF16BE => read_line_utf16be(bytes, line),
            Encoding::UTF32LE => read_line_utf32le(bytes, line),
            Encoding::UTF32BE => read_line_utf32be(bytes, line),
        }
    }
}

/// Round trip: decoding the bytes produced by encoding a text under the
/// same encoding yields the original text exactly.  Encoding succeeds for
/// every text under all encodings but ASCII and Latin-1, which are
/// restricted to their own character ranges.
pub proof fn lemma_encode_decode_roundtrip(enc: Encoding, s: Seq<char>)
    requires
        spec_encode(enc, s) is Some,
    ensures
        spec_decode(enc, spec_encode(enc, s).unwrap()) == Some(s),
{
    match enc {
        Encoding::ASCII => {
            let bytes = s.map_values(|c: char| (c as u32) as u8);
            assert(ascii_encodable(s));
            assert(latin1_encodable(s));
            lemma_byte_chars_roundtrip(s);
            assert forall|i: int| 0 <= i < bytes.len() implies bytes[i] <= 127 by {
                assert((s[i] as u32) <= 0x7f);
            }
            assert(ascii_ok(bytes));
        },
        Encoding::Latin1 => {
            lemma_byte_chars_roundtrip(s);
        },
        Encoding::UTF8 => {
            vstd::utf8::encode_utf8_valid_utf8(s);
            vstd::utf8::encode_utf8_decode_utf8(s);
        },
        Encoding::UTF16BE => {
            lemma_utf16_roundtrip(s, true);
        },
        Encoding::UTF16LE => {
            lemma_utf16_roundtrip(s, false);
        },
        Encoding::UTF32BE => {
            lemma_utf32_roundtrip(s, true);
        },
        Encoding::UTF32LE => {
            lemma_utf32_roundtrip(s, false);
        },
    }
}

} // verus!
