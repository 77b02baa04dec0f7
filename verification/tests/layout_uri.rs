use engine::layout::{outline_value, picked_id, picking_buffer_size, picking_bytes_per_row, round_to_next_multiple_of_256};
use engine::text::{after_last_char, chars_of, contains_char, find, matches_at, same_chars};
use engine::uri::{format_from_mime, format_from_uri, ImageFormat, ReadError, ReadSource, Scheme};

#[test]
fn rounds_up_to_256() {
    assert_eq!(round_to_next_multiple_of_256(0), 0);
    assert_eq!(round_to_next_multiple_of_256(1), 256);
    assert_eq!(round_to_next_multiple_of_256(256), 256);
    assert_eq!(round_to_next_multiple_of_256(257), 512);
    assert_eq!(round_to_next_multiple_of_256(u32::MAX - 255), u32::MAX - 255);
}

#[test]
fn picking_rows_are_padded() {
    assert_eq!(picking_bytes_per_row(100), 1024);
    assert_eq!(picking_bytes_per_row(256), 1024);
    assert_eq!(picking_bytes_per_row(300), 2048);
    assert_eq!(picking_buffer_size(100, 2), 2048);
    assert_eq!(picking_buffer_size(1920, 1080), 2048 * 1080 * 4);
}

#[test]
fn picked_id_is_little_endian() {
    let pixels = [0u8, 0, 0, 0x78, 0x56, 0x34, 0x12, 0];
    assert_eq!(picked_id(&pixels, 2, 1, 1), 0x1234_5678);
    assert_eq!(picked_id(&pixels, 2, 0, 0), 0x7800_0000);
}

#[test]
fn outline_value_packs_color_then_width() {
    assert_eq!(outline_value(5, [1, 2, 3]), 0x0102_0305);
    assert_eq!(outline_value(0, [0xff, 0, 0]), 0xff00_0000);
}

#[test]
fn text_helpers() {
    let s = chars_of("a.b.png");
    assert_eq!(s.len(), 7);
    assert!(contains_char(&s, '.'));
    assert!(!contains_char(&s, ':'));
    assert_eq!(after_last_char(&s, '.'), chars_of("png"));
    assert_eq!(after_last_char(&chars_of("noext"), '.'), chars_of("noext"));
    assert!(matches_at(&s, &chars_of("b."), 2));
    assert!(!matches_at(&s, &chars_of("b."), 1));
    assert_eq!(find(&s, &chars_of("."), 0), Some(1));
    assert_eq!(find(&s, &chars_of("."), 2), Some(3));
    assert_eq!(find(&s, &chars_of("x"), 0), None);
    assert!(same_chars(&chars_of("abc"), &chars_of("abc")));
    assert!(!same_chars(&chars_of("abc"), &chars_of("abd")));
}

#[test]
fn parses_data_uri_with_media_type() {
    let s = Scheme::parse("data:image/png;base64,aGVsbG8=");
    assert_eq!(s, Scheme::Data(Some("image/png"), "aGVsbG8="));
}

#[test]
fn parses_data_uri_without_separator() {
    assert_eq!(Scheme::parse("data:aGVsbG8="), Scheme::Data(None, "aGVsbG8="));
}

#[test]
fn data_payload_stops_at_second_separator() {
    assert_eq!(
        Scheme::parse("data:a;base64,bb;base64,cc"),
        Scheme::Data(Some("a"), "bb")
    );
}

#[test]
fn parses_file_uris() {
    assert_eq!(Scheme::parse("file:///tmp/x.png"), Scheme::File("/tmp/x.png"));
    assert_eq!(Scheme::parse("file:C:/x.png"), Scheme::File("C:/x.png"));
}

#[test]
fn parses_relative_uri_percent_decoded() {
    assert_eq!(Scheme::parse("textures/a%20b.png"), Scheme::Relative("textures/a b.png".to_string()));
    assert_eq!(Scheme::parse("plain.png"), Scheme::Relative("plain.png".to_string()));
}

#[test]
fn other_schemes_are_unsupported() {
    assert_eq!(Scheme::parse("http://example.com/x.png"), Scheme::Unsupported);
}

#[test]
fn try_parse_rejects_invalid_utf8_escape() {
    assert_eq!(Scheme::try_parse("%FF"), None);
    assert_eq!(Scheme::try_parse("a%41"), Some(Scheme::Relative("aA".to_string())));
    assert_eq!(Scheme::try_parse("http:%FF"), Some(Scheme::Unsupported));
}

#[test]
fn reads_data_payload() {
    let s = Scheme::parse("data:application/octet-stream;base64,aGVsbG8=");
    assert_eq!(s.read(false), ReadSource::Bytes(b"hello".to_vec()));
    assert_eq!(s.try_read(false), Ok(ReadSource::Bytes(b"hello".to_vec())));
}

#[test]
fn reads_files_only_with_base() {
    let f = Scheme::parse("file:///data/a.bin");
    assert_eq!(f.try_read(true), Ok(ReadSource::File("/data/a.bin".to_string())));
    assert_eq!(f.try_read(false), Err(ReadError::ExternalReference));
    let r = Scheme::parse("a%20b.bin");
    assert_eq!(r.try_read(true), Ok(ReadSource::Relative("a b.bin".to_string())));
    assert_eq!(r.try_read(false), Err(ReadError::ExternalReference));
}

#[test]
fn read_errors() {
    assert_eq!(Scheme::parse("data:x;base64,!!!").try_read(true), Err(ReadError::InvalidBase64));
    assert_eq!(Scheme::parse("ftp://host/a").try_read(true), Err(ReadError::UnsupportedScheme));
}

#[test]
fn image_formats() {
    assert_eq!(format_from_mime("image/png"), Some(ImageFormat::Png));
    assert_eq!(format_from_mime("image/jpeg"), Some(ImageFormat::Jpeg));
    assert_eq!(format_from_mime("image/gif"), None);
    assert_eq!(format_from_uri(None, "a/b.jpeg"), Some(ImageFormat::Jpeg));
    assert_eq!(format_from_uri(None, "a/b.jpg"), Some(ImageFormat::Jpeg));
    assert_eq!(format_from_uri(None, "a.b/c.png"), Some(ImageFormat::Png));
    assert_eq!(format_from_uri(None, "x.JPG"), None);
    assert_eq!(format_from_uri(Some("image/jpeg"), "x.png"), Some(ImageFormat::Jpeg));
}

#[test]
fn empty_media_type_is_none() {
    assert_eq!(Scheme::parse("data:;base64,aGk="), Scheme::Data(None, "aGk="));
}
