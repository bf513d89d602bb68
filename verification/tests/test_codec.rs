use punktum::encoding::read_line_ascii;
use punktum::encoding::read_line_latin1;
use punktum::encoding::read_line_utf16le;
use punktum::encoding::read_line_utf32be;
use punktum::encoding::read_utf16;
use punktum::encoding::read_utf32;
use punktum::encoding::Encoding;
use punktum::encoding::IllegalEncoding;
use punktum::Error;

fn chars(s: &str) -> Vec<char> {
    s.chars().collect()
}

fn roundtrip(enc: Encoding, s: &str) {
    let bytes = enc.encode(s).expect("encoding should succeed");
    let decoded = enc.decode(&bytes).expect("decoding should succeed");
    assert_eq!(decoded, chars(s), "round trip through {enc:?} must give back {s:?}");
}

#[test]
fn roundtrip_all_encodings() {
    let all = [
        Encoding::ASCII,
        Encoding::Latin1,
        Encoding::UTF8,
        Encoding::UTF16BE,
        Encoding::UTF16LE,
        Encoding::UTF32BE,
        Encoding::UTF32LE,
    ];
    for enc in all {
        roundtrip(enc, "plain ascii text\nwith two lines");
    }
    for enc in [Encoding::UTF8, Encoding::UTF16BE, Encoding::UTF16LE, Encoding::UTF32BE, Encoding::UTF32LE] {
        roundtrip(enc, "H\u{e9}llo w\u{f6}rld \u{1F603} \u{4e16}\u{754c}\n");
    }
    roundtrip(Encoding::Latin1, "H\u{e9}llo \u{ff}");
}

#[test]
fn encode_rejects_out_of_range() {
    assert_eq!(Encoding::ASCII.encode("caf\u{e9}"), Err(Error::InvalidData));
    assert_eq!(Encoding::Latin1.encode("\u{100}"), Err(Error::InvalidData));
    assert!(Encoding::ASCII.encode("cafe").is_ok());
}

#[test]
fn utf8_exact_bytes() {
    let bytes = Encoding::UTF8.encode("A\u{e4}\u{20ac}\u{1F603}").unwrap();
    assert_eq!(
        bytes,
        vec![0x41, 0xc3, 0xa4, 0xe2, 0x82, 0xac, 0xf0, 0x9f, 0x98, 0x83],
    );
}

#[test]
fn ascii_rejects_high_byte() {
    assert_eq!(Encoding::ASCII.decode(&[0x41, 0x80]), Err(Error::InvalidData));
    assert_eq!(Encoding::ASCII.decode(&[0x41, 0x42]).unwrap(), chars("AB"));
}

#[test]
fn latin1_maps_bytes_directly() {
    assert_eq!(Encoding::Latin1.decode(&[0x41, 0xe9, 0xff]).unwrap(), chars("A\u{e9}\u{ff}"));
}

#[test]
fn utf8_rejects_malformed() {
    assert_eq!(Encoding::UTF8.decode(&[0xff]), Err(Error::InvalidData));
    // overlong encoding of '/'
    assert_eq!(Encoding::UTF8.decode(&[0xc0, 0xaf]), Err(Error::InvalidData));
    // surrogate half
    assert_eq!(Encoding::UTF8.decode(&[0xed, 0xa0, 0x80]), Err(Error::InvalidData));
    // truncated sequence
    assert_eq!(Encoding::UTF8.decode(&[0xe2, 0x82]), Err(Error::InvalidData));
}

#[test]
fn utf16_surrogate_rules() {
    // lone low surrogate
    assert_eq!(Encoding::UTF16BE.decode(&[0xdc, 0x00]), Err(Error::InvalidData));
    // high surrogate at end of stream
    assert_eq!(Encoding::UTF16BE.decode(&[0xd8, 0x3d]), Err(Error::InvalidData));
    // high surrogate followed by a non-surrogate
    assert_eq!(Encoding::UTF16BE.decode(&[0xd8, 0x3d, 0x00, 0x41]), Err(Error::InvalidData));
    // a valid pair: U+1F603
    assert_eq!(Encoding::UTF16BE.decode(&[0xd8, 0x3d, 0xde, 0x03]).unwrap(), chars("\u{1F603}"));
    // units outside the surrogate range decode directly
    assert_eq!(Encoding::UTF16LE.decode(&[0xe4, 0x00, 0x00, 0xe0]).unwrap(), chars("\u{e4}\u{e000}"));
    // a trailing lone byte is ignored
    assert_eq!(Encoding::UTF16BE.decode(&[0x00, 0x41, 0x7f]).unwrap(), chars("A"));
}

#[test]
fn utf32_scalar_rules() {
    assert_eq!(Encoding::UTF32BE.decode(&[0x00, 0x01, 0xf6, 0x03]).unwrap(), chars("\u{1F603}"));
    // beyond the Unicode range
    assert_eq!(Encoding::UTF32BE.decode(&[0x00, 0x11, 0x00, 0x00]), Err(Error::InvalidData));
    // a surrogate value is not a scalar
    assert_eq!(Encoding::UTF32LE.decode(&[0x00, 0xd8, 0x00, 0x00]), Err(Error::InvalidData));
    // a trailing partial unit is ignored
    assert_eq!(Encoding::UTF32BE.decode(&[0x00, 0x00, 0x00, 0x41, 0x00]).unwrap(), chars("A"));
}

#[test]
fn read_to_string_appends() {
    let mut buf = String::from("pre:");
    let n = Encoding::UTF8.read_to_string("h\u{e9}llo".as_bytes(), &mut buf).unwrap();
    assert_eq!(n, 6);
    assert_eq!(buf, "pre:h\u{e9}llo");

    let mut buf = String::new();
    assert_eq!(Encoding::ASCII.read_to_string(&[0xc3], &mut buf), Err(Error::InvalidData));
    assert_eq!(buf, "");
}

#[test]
fn read_line_stops_at_newline() {
    // end of stream with nothing accumulated signals "no more lines"
    let mut line = String::new();
    assert_eq!(read_line_ascii(b"", &mut line), Ok(0));
    assert_eq!(Encoding::UTF16LE.read_line(b"", &mut line), Ok(0));
    assert_eq!(line, "");

    let mut line = String::new();
    let n = read_line_ascii(b"ab\ncd", &mut line).unwrap();
    assert_eq!((n, line.as_str()), (3, "ab\n"));

    let mut line = String::new();
    let n = read_line_ascii(b"tail", &mut line).unwrap();
    assert_eq!((n, line.as_str()), (4, "tail"));

    let mut line = String::new();
    assert_eq!(read_line_ascii(&[0x80, 0x0a], &mut line), Err(Error::InvalidData));

    let mut line = String::new();
    let n = read_line_latin1(&[0xe9, 0x0a, 0x41], &mut line).unwrap();
    assert_eq!((n, line.as_str()), (2, "\u{e9}\n"));
}

#[test]
fn read_line_multibyte_units() {
    // "ä\nB" in UTF-16LE
    let bytes = [0xe4, 0x00, 0x0a, 0x00, 0x42, 0x00];
    let mut line = String::new();
    let n = read_line_utf16le(&bytes, &mut line).unwrap();
    assert_eq!((n, line.as_str()), (4, "\u{e4}\n"));
    let mut rest = String::new();
    let n = read_line_utf16le(&bytes[4..], &mut rest).unwrap();
    assert_eq!((n, rest.as_str()), (2, "B"));

    // "A\n" in UTF-32BE
    let bytes = [0x00, 0x00, 0x00, 0x41, 0x00, 0x00, 0x00, 0x0a];
    let mut line = String::new();
    let n = read_line_utf32be(&bytes, &mut line).unwrap();
    assert_eq!((n, line.as_str()), (8, "A\n"));
}

#[test]
fn read_line_dispatch_utf8() {
    let mut line = String::new();
    let n = Encoding::UTF8.read_line("\u{e4}\nx".as_bytes(), &mut line).unwrap();
    assert_eq!((n, line.as_str()), (3, "\u{e4}\n"));
    let mut line = String::new();
    assert_eq!(Encoding::UTF8.read_line(&[0xff, 0x0a], &mut line), Err(Error::InvalidData));
}

#[test]
fn whole_buffer_utf16_and_utf32_readers() {
    let mut out = String::new();
    let n = read_utf16(&[0x00, 0x41, 0xd8, 0x3d, 0xde, 0x03], &mut out, true).unwrap();
    assert_eq!((n, out.as_str()), (6, "A\u{1F603}"));

    let mut out = String::new();
    let n = read_utf32(&[0x41, 0x00, 0x00, 0x00], &mut out, false).unwrap();
    assert_eq!((n, out.as_str()), (4, "A"));
}

#[test]
fn encoding_names_resolve() {
    assert_eq!(Encoding::from_name(""), Ok(Encoding::UTF8));
    assert_eq!(Encoding::from_name("UTF-8"), Ok(Encoding::UTF8));
    assert_eq!(Encoding::from_name("utf8"), Ok(Encoding::UTF8));
    assert_eq!(Encoding::from_name("windows-65001"), Ok(Encoding::UTF8));
    assert_eq!(Encoding::from_name("ASCII"), Ok(Encoding::ASCII));
    assert_eq!(Encoding::from_name("us-ascii"), Ok(Encoding::ASCII));
    assert_eq!(Encoding::from_name("Latin1"), Ok(Encoding::Latin1));
    assert_eq!(Encoding::from_name("ISO-8859-1"), Ok(Encoding::Latin1));
    assert_eq!(Encoding::from_name("cp819"), Ok(Encoding::Latin1));
    assert_eq!(Encoding::from_name("utf-16le"), Ok(Encoding::UTF16LE));
    assert_eq!(Encoding::from_name("UTF16BE"), Ok(Encoding::UTF16BE));
    assert_eq!(Encoding::from_name("windows-12000"), Ok(Encoding::UTF32LE));
    assert_eq!(Encoding::from_name("utf-32be"), Ok(Encoding::UTF32BE));
    assert_eq!(Encoding::from_name("koi8-r"), Err(IllegalEncoding()));
    assert_eq!(Encoding::from_name("utf-7"), Err(IllegalEncoding()));
}
