use crustlet::parser::position;
use crustlet::{parse_env, EnvConfig};

fn get(c: &EnvConfig, key: &str) -> Option<String> {
    c.get(&key.to_string()).cloned()
}

#[test]
fn lines_of_key_value_pairs() {
    let c = parse_env(b"kernel=gazami\nrootfs=disk0\n".to_vec());
    assert_eq!(get(&c, "kernel").as_deref(), Some("gazami"));
    assert_eq!(get(&c, "rootfs").as_deref(), Some("disk0"));
    assert_eq!(c.entries().len(), 2);
}

#[test]
fn carriage_return_before_newline_is_dropped() {
    let c = parse_env(b"a=1\r\nb=2\r\r\n".to_vec());
    assert_eq!(get(&c, "a").as_deref(), Some("1"));
    assert_eq!(get(&c, "b").as_deref(), Some("2\r"));
}

#[test]
fn value_keeps_later_equals_signs() {
    let c = parse_env(b"opts=a=b=c\n".to_vec());
    assert_eq!(get(&c, "opts").as_deref(), Some("a=b=c"));
}

#[test]
fn lines_without_key_or_value_are_skipped() {
    let c = parse_env(b"=x\ny=\nnoequals\n\n=\n\r\n".to_vec());
    assert!(c.entries().is_empty());
    assert_eq!(get(&c, "y"), None);
    assert_eq!(get(&c, ""), None);
}

#[test]
fn later_line_replaces_earlier_value() {
    let c = parse_env(b"a=1\nb=2\na=3\n".to_vec());
    assert_eq!(get(&c, "a").as_deref(), Some("3"));
    assert_eq!(get(&c, "b").as_deref(), Some("2"));
    assert_eq!(c.entries().len(), 2);
}

#[test]
fn bytes_after_the_last_newline_are_not_read() {
    let c = parse_env(b"a=1\ntail=9".to_vec());
    assert_eq!(get(&c, "a").as_deref(), Some("1"));
    assert_eq!(get(&c, "tail"), None);
    let d = parse_env(b"a=1\n".to_vec());
    assert_eq!(c.entries(), d.entries());
    assert!(parse_env(b"no=newline".to_vec()).entries().is_empty());
    assert!(parse_env(Vec::new()).entries().is_empty());
}

#[test]
fn invalid_utf8_line_is_skipped() {
    let c = parse_env(b"\xff=1\nok=\xc3\xa9\nbad=\xc0\xaf\n".to_vec());
    assert_eq!(get(&c, "ok").as_deref(), Some("\u{e9}"));
    assert_eq!(get(&c, "bad"), None);
    assert_eq!(c.entries().len(), 1);
}

#[test]
fn unicode_keys_and_values() {
    let c = parse_env("ключ=значение\n".as_bytes().to_vec());
    assert_eq!(get(&c, "ключ").as_deref(), Some("значение"));
}

#[test]
fn reading_whole_lines_then_more_is_reading_everything() {
    let a: &[u8] = b"x=1\ny=2\n";
    let b: &[u8] = b"x=3\nz=4\n";
    let whole = parse_env([a, b].concat());
    assert_eq!(get(&whole, "x").as_deref(), Some("3"));
    assert_eq!(get(&whole, "y").as_deref(), Some("2"));
    assert_eq!(get(&whole, "z").as_deref(), Some("4"));
}

#[test]
fn crlf_and_lf_lines_read_alike() {
    let c = parse_env(b"a=1\r\nb=2\r\n".to_vec());
    let d = parse_env(b"a=1\nb=2\n".to_vec());
    assert_eq!(c.entries(), d.entries());
}

#[test]
fn position_finds_the_first_byte() {
    assert_eq!(position(b"ab=c=d", b'='), Some(2));
    assert_eq!(position(b"abc", b'='), None);
    assert_eq!(position(b"", b'\n'), None);
}

#[test]
fn entries_come_in_key_order() {
    let c = parse_env("b=1\na=2\nc=3\nB=4\né=5\n".as_bytes().to_vec());
    let keys: Vec<&str> = c.entries().iter().map(|(k, _)| k.as_str()).collect();
    assert_eq!(keys, vec!["B", "a", "b", "c", "é"]);
}
