use wap::txt::{decode_cheatz, parse_ini, OFFSET, QUOTE};

#[test]
fn decode_cheatz_inside_quotes() {
    // a string whose first non-ASCII byte turns ASCII once OFFSET is taken off
    let mut buf = vec![b'k', QUOTE, 0x9A, 0x80, QUOTE, 0x9A];
    decode_cheatz(&mut buf);
    assert_eq!(buf, vec![b'k', QUOTE, 0x9A - OFFSET, 0x80 - OFFSET, QUOTE, 0x9A]);
}

#[test]
fn decode_cheatz_plain_text_unchanged() {
    let orig = b"[Cheatz]\nname=\"plain text\"\n".to_vec();
    let mut buf = orig.clone();
    decode_cheatz(&mut buf);
    assert_eq!(buf, orig);
}

#[test]
fn decode_cheatz_starts_at_first_cheat_byte() {
    // ASCII bytes before the first cheat byte stay, those after it are decoded
    let mut buf = vec![QUOTE, b'a', 0x9A, 0x61, QUOTE];
    decode_cheatz(&mut buf);
    assert_eq!(buf, vec![QUOTE, b'a', 0x9A - OFFSET, 0x61 - OFFSET, QUOTE]);
}

#[test]
fn parse_ini_sections() {
    let ini = parse_ini(b"[Section]\nkey=value\n").unwrap();
    assert_eq!(ini.get_from(Some("Section"), "key"), Some("value"));
}

#[test]
fn parse_ini_error() {
    assert!(parse_ini(b"[Section\nkey=value\n").is_err());
}
