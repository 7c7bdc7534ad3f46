use binary_logger::format::{render_format, validate_format, FormatInfo};
use binary_logger::loggable::Loggable;

#[test]
fn test_compile_time_format() {
    let info = FormatInfo::new("Test: {} value={}", 1).unwrap();
    assert_eq!(info.format_string, "Test: {} value={}");
}

#[test]
fn test_format_validation() {
    assert!(validate_format("Test: {} value={}"));
    assert!(!validate_format("Test: {} value={"));
    assert!(!validate_format("Test: } value={}"));
    assert!(validate_format("Test: {{escaped}} {}"));
}

#[test]
fn nested_brace_is_invalid() {
    assert!(!validate_format("{{}"));
    assert!(!validate_format("{ {}"));
    assert!(validate_format(""));
    assert!(FormatInfo::new("a { b", 3).is_none());
}

#[test]
fn render_substitutes_in_order() {
    let args = vec!["1".to_string(), "two".to_string()];
    assert_eq!(render_format("a={} b={}", &args), "a=1 b=two");
    assert_eq!(render_format("{} {} {}", &args), "1 two {MISSING}");
    assert_eq!(render_format("no placeholders", &args), "no placeholders");
    assert_eq!(render_format("{x}", &args), "{x}");
}

#[test]
fn test_numeric_serialization() {
    let mut buf = [0u8; 32];
    let value = 12345i32;
    let len = value.serialize(&mut buf);
    assert_eq!(len, 7);
    assert_eq!(&buf[2..7], b"12345");
}

#[test]
fn test_string_serialization() {
    let mut buf = [0u8; 32];
    let value = "Hello";
    let len = value.serialize(&mut buf);
    assert_eq!(len, 7);
    assert_eq!(&buf[2..7], b"Hello");
}

#[test]
fn test_bool_serialization() {
    let mut buf = [0u8; 32];
    let value = true;
    let len = value.serialize(&mut buf);
    assert_eq!(len, 6);
    assert_eq!(&buf[2..6], b"true");
}

#[test]
fn serialization_writes_length_prefix() {
    let mut buf = [0xaau8; 16];
    let len = (-42i32).serialize(&mut buf);
    assert_eq!(len, 5);
    assert_eq!(&buf[..5], &[3, 0, b'-', b'4', b'2']);
    assert_eq!(buf[5], 0xaa);
    let len = false.serialize(&mut buf);
    assert_eq!(&buf[..len], &[5, 0, b'f', b'a', b'l', b's', b'e']);
    let s = String::from("héllo");
    let len = s.serialize(&mut buf);
    assert_eq!(len, 8);
    assert_eq!(&buf[..2], &[6, 0]);
}
