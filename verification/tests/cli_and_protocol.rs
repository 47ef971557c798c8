use lib::backend::check_ptr_kind;
use lib::cli_value::{parse_i64_chars, parse_value, CliValue, ERR_MAP_NEEDS_DIMS};
use lib::consts::{KIND_INDEX, KIND_MAP, KIND_OBJ};
use lib::kvspace_common::{join_path, sep_path, validate_dir};
use lib::resp::{classify_line, command_bytes, scan_match, ReplyLine};
use lib::watch::{equal_xvalue, watch_backoff, without_ext_tail};
use lib::xvalue::{MapValue, XValue};
use lib::xvalue_bool::new_bool;
use lib::xvalue_byte::{new_char32, new_char_byte};
use lib::xvalue_codec::new_ptr;
use lib::xvalue_float::new_float64;
use lib::xvalue_index::{new_ext_index, new_index};
use lib::xvalue_int::{new_int64, new_int8};
use lib::xvalue_uint::new_uint16;

fn value(raw: &str) -> XValue {
    match parse_value(raw) {
        Ok(CliValue::Value(v)) => v,
        Ok(_) => panic!("float text for {}", raw),
        Err(e) => panic!("error for {}: {}", raw, e),
    }
}

fn chars(s: &str) -> Vec<char> {
    s.chars().collect()
}

#[test]
fn cli_scalars() {
    assert_eq!(value("int:42"), new_int64(&[42]));
    assert_eq!(value("int:-9223372036854775808"), new_int64(&[i64::MIN]));
    assert_eq!(value("int::+7"), new_int64(&[7]));
    assert_eq!(value("bool:true"), new_bool(&[true]));
    assert_eq!(value("bool:false"), new_bool(&[false]));
    assert_eq!(value("string:a:b"), new_char_byte(b"a:b"));
    assert_eq!(value("nil"), XValue::Nil);
    assert_eq!(value(KIND_INDEX), new_index(&[]));
    assert_eq!(value(KIND_OBJ), XValue::MapVal(MapValue { langtype: KIND_OBJ.to_string(), dims: vec![] }));
    match parse_value("float:1.5") {
        Ok(CliValue::Float64(t)) => assert_eq!(t, "1.5"),
        _ => panic!("expected float text"),
    }
    match parse_value("float32:2") {
        Ok(CliValue::Float32(t)) => assert_eq!(t, "2"),
        _ => panic!("expected float32 text"),
    }
}

#[test]
fn cli_pointers_and_maps() {
    assert_eq!(value("*int64:/x/y"), new_ptr("int64", "/x/y"));
    assert_eq!(value("*/x/y"), new_ptr("", "/x/y"));
    assert_eq!(value("map[2,3]"), XValue::MapVal(MapValue { langtype: KIND_MAP.to_string(), dims: vec![2, 3] }));
    assert_eq!(value("map:2,x"), XValue::MapVal(MapValue { langtype: KIND_MAP.to_string(), dims: vec![2, 0] }));
    assert_eq!(value("mapmap[4]:"), XValue::MapVal(MapValue { langtype: KIND_MAP.to_string(), dims: vec![4] }));
    assert!(matches!(parse_value("map[]"), Err(e) if e == ERR_MAP_NEEDS_DIMS));
}

#[test]
fn cli_errors() {
    assert!(matches!(parse_value("int:x"), Err(e) if e == "invalid int: \"x\""));
    assert!(matches!(parse_value("int:9223372036854775808"), Err(e) if e == "invalid int: \"9223372036854775808\""));
    assert!(matches!(parse_value("bool:yes"), Err(e) if e == "invalid bool: \"yes\""));
    assert!(matches!(parse_value("what:1"), Err(e) if e == "unknown kind: \"what\""));
}

#[test]
fn i64_text() {
    assert_eq!(parse_i64_chars(&chars("0")), Some(0));
    assert_eq!(parse_i64_chars(&chars("-0")), Some(0));
    assert_eq!(parse_i64_chars(&chars("+12")), Some(12));
    assert_eq!(parse_i64_chars(&chars("9223372036854775807")), Some(i64::MAX));
    assert_eq!(parse_i64_chars(&chars("-9223372036854775809")), None);
    assert_eq!(parse_i64_chars(&chars("-")), None);
    assert_eq!(parse_i64_chars(&chars("")), None);
    assert_eq!(parse_i64_chars(&chars("1a")), None);
}

#[test]
fn redis_framing() {
    let cmd = command_bytes(&[b"GET".to_vec(), b"/a".to_vec()]);
    assert_eq!(cmd, b"*2\r\n$3\r\nGET\r\n$2\r\n/a\r\n".to_vec());
    assert_eq!(command_bytes(&[]), b"*0\r\n".to_vec());
    assert!(matches!(classify_line(b"+OK"), ReplyLine::Simple(s) if s == "OK"));
    assert!(matches!(classify_line(b"-ERR x"), ReplyLine::Error(s) if s == "ERR x"));
    assert!(matches!(classify_line(b":12"), ReplyLine::Integer(12)));
    assert!(matches!(classify_line(b":x"), ReplyLine::Integer(0)));
    assert!(matches!(classify_line(b"$5"), ReplyLine::BulkLen(5)));
    assert!(matches!(classify_line(b"$-1"), ReplyLine::BulkLen(-1)));
    assert!(matches!(classify_line(b"*2"), ReplyLine::ArrayLen(2)));
    assert!(matches!(classify_line(b"*?"), ReplyLine::ArrayLen(-1)));
    assert!(matches!(classify_line(b""), ReplyLine::Empty));
    assert!(matches!(classify_line(b"!x"), ReplyLine::Unexpected(b'!')));
    assert!(scan_match("/a", "/a"));
    assert!(scan_match("/a/b", "/a"));
    assert!(scan_match("/a.b", "/a"));
    assert!(scan_match("/ab", "/a"));
    assert!(scan_match("/a\u{b7}x", "/a"));
    assert!(!scan_match("/b", "/a"));
    assert!(!scan_match("/", "/a"));
}

#[test]
fn watch_steps() {
    assert_eq!(watch_backoff(0, 0, 1_000_000), (1, 0, None));
    assert_eq!(watch_backoff(99, 0, 1_000_000), (100, 0, None));
    assert_eq!(watch_backoff(100, 0, 1_000_000), (100, 1000, Some(1000)));
    assert_eq!(watch_backoff(100, 1000, 1_000_000), (100, 2000, Some(2000)));
    assert_eq!(watch_backoff(100, 600_000, 1_000_000), (100, 1_000_000, Some(1_000_000)));
    assert_eq!(watch_backoff(100, 1_000_000, 1_000_000), (100, 1_000_000, Some(1_000_000)));
    assert_eq!(watch_backoff(100, u64::MAX / 2 + 1, u64::MAX), (100, u64::MAX, Some(u64::MAX)));
    assert!(equal_xvalue(&new_int64(&[3]), &new_int64(&[3])));
    assert!(!equal_xvalue(&new_int64(&[3]), &new_int64(&[4])));
    assert!(!equal_xvalue(&new_int64(&[3]), &new_uint16(&[3])));
    assert!(equal_xvalue(&XValue::Nil, &XValue::Nil));
    let names: Vec<String> = vec!["a".into(), "b".into(), "x".into()];
    assert_eq!(without_ext_tail(&names, 1), vec!["a".to_string(), "b".to_string()]);
    assert_eq!(without_ext_tail(&names, 5), Vec::<String>::new());
}

#[test]
fn plain_and_code_texts() {
    assert_eq!(new_int8(&[-5]).value_string().as_deref(), Some("-5"));
    assert_eq!(new_int64(&[7]).code_string().as_deref(), Some("int64:7"));
    assert_eq!(new_bool(&[true]).value_string().as_deref(), Some("true"));
    assert_eq!(new_char_byte(b"hi").value_string().as_deref(), Some("hi"));
    assert_eq!(new_char32(&[0x41, 0xD800, 0x42]).value_string().as_deref(), Some("A\u{FFFD}B"));
    assert_eq!(new_ptr("int64", "/x").value_string().as_deref(), Some("\u{2192}/x"));
    assert_eq!(new_ptr("int64", "/x").code_string().as_deref(), Some("\u{2192}/x:int64"));
    assert_eq!(XValue::Nil.value_string().as_deref(), Some("None"));
    assert_eq!(XValue::Nil.code_string().as_deref(), Some("None"));
    let m = XValue::MapVal(MapValue { langtype: KIND_MAP.to_string(), dims: vec![2, 3] });
    assert_eq!(m.value_string().as_deref(), Some("map[2,3]"));
    assert_eq!(new_index(&["a".to_string()]).code_string().as_deref(), Some("index:(1)"));
    assert_eq!(new_ext_index(&[], "/e/").value_string().as_deref(), Some("(0) \u{2026}/e/"));
    assert_eq!(new_float64(&[1.5f64.to_bits()]).value_string(), None);
    assert_eq!(new_float64(&[1.5f64.to_bits()]).code_string(), None);
}

#[test]
fn pointer_kind_checks() {
    assert!(check_ptr_kind("/t", &XValue::Nil, "int64").is_ok());
    assert!(check_ptr_kind("/t", &new_int64(&[1]), "").is_ok());
    assert!(check_ptr_kind("/t", &new_int64(&[1]), "int64").is_ok());
    match check_ptr_kind("/t", &new_int64(&[1]), "bool") {
        Err(e) => assert!(e.ends_with(": ptr kind mismatch: target /t is int64, ptr expects bool")),
        Ok(()) => panic!("expected a mismatch"),
    }
}

#[test]
fn directory_prefixes_and_path_halves() {
    assert!(validate_dir("/").is_ok());
    assert!(validate_dir("/a/").is_ok());
    assert!(validate_dir("/a\u{b7}").is_ok());
    let e = validate_dir("/a").unwrap_err();
    assert_eq!(e, format!("{}: /a", lib::consts::ERR_DIR_MUST_END_WITH_SLASH));
    for p in ["/a/b", "/a", "/", "/x\u{b7}y/z"] {
        let (d, n) = sep_path(p);
        assert_eq!(join_path(&d, &n), p);
    }
}

#[test]
fn permission_bits_rehead_a_value() {
    let v = lib::xvalue_int::new_int64(&[7]);
    let b = lib::xvalue_codec::encode_with_perm(&v, true, 9).unwrap();
    let h = lib::xvalue::decode_xvalue_head(&b);
    assert!(h.ro);
    assert_eq!(h.vid, 9);
    assert_eq!(lib::xvalue_codec::decode_xvalue(&b), v);
    assert!(lib::xvalue_codec::encode_with_perm(&XValue::Nil, false, 0).unwrap().is_empty());
}
