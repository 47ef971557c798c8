use lib::xvalue::{build_langtype, decode_xvalue_head, parse_kindexpr, storetype_of, Arr, ExtIndex, XValue};
use lib::xvalue_bool::new_bool;
use lib::xvalue_byte::new_char_byte;
use lib::xvalue_codec::{decode_xvalue, new_ptr};
use lib::xvalue_float::new_float64;
use lib::xvalue_index::{matrix_at, matrix_count};
use lib::xvalue_int::new_int64;
use lib::consts::{KIND_EXT_INDEX, KIND_INDEX};

fn chars(s: &str) -> Vec<char> {
    s.chars().collect()
}

fn roundtrip(v: &XValue) {
    let bytes = v.encode();
    assert_eq!(*v, decode_xvalue(&bytes), "roundtrip {:?}", v);
}

#[test]
fn langtype_build_parse() {
    for (kind, dims) in [
        ("int64", vec![]),
        ("float32", vec![5]),
        ("float64", vec![2, 3]),
        ("char/utf32", vec![0]),
    ] {
        let k = chars(kind);
        let st = storetype_of(&k, dims.len() as i32);
        let s = build_langtype(&k, st, &dims);
        let (d2, k2) = parse_kindexpr(&chars(&s));
        let k2: String = k2.into_iter().collect();
        assert_eq!((dims, kind.to_string()), (d2, k2), "langtype {}", s);
    }
}

#[test]
fn roundtrip_values() {
    roundtrip(&new_int64(&[42]));
    roundtrip(&new_float64(&[1.5f64.to_bits()]));
    roundtrip(&new_bool(&[true]));
    roundtrip(&new_char_byte(b"hello"));
    roundtrip(&new_char_byte(b""));
    roundtrip(&new_ptr("int64", "/x/y"));
    roundtrip(&XValue::Int32(Arr { data: vec![1, 2, 3, 4, 5, 6], dims: vec![2, 3] }));
}

#[test]
fn index_matrix_roundtrip() {
    let v = XValue::Index(vec!["[10]".into(), "[2]".into(), "[1]".into()]);
    let bytes = v.encode();
    let h = decode_xvalue_head(&bytes);
    assert_eq!(h.kind(), KIND_INDEX);
    assert_eq!(h.dims(), vec![3, 3, 8]);
    let decoded = decode_xvalue(&bytes);
    assert_eq!(decoded, XValue::Index(vec!["[1]".into(), "[2]".into(), "[10]".into()]));
    let body = h.body(&bytes);
    assert_eq!(matrix_count(&h.dims()), 3);
    assert_eq!(matrix_at(&body, 8, 0).as_deref(), Some("[1]"));
    assert_eq!(matrix_at(&body, 8, 2).as_deref(), Some("[10]"));
    assert_eq!(matrix_at(&body, 8, 3), None);
}

#[test]
fn xvalue_index_empty() {
    let bytes = XValue::Index(vec![]).encode();
    let h = decode_xvalue_head(&bytes);
    assert_eq!(h.dims(), vec![0, 0, 0]);
    assert_eq!(decode_xvalue(&bytes), XValue::Index(vec![]));
}

#[test]
fn xvalue_ext_index_roundtrip() {
    let v = XValue::ExtIndex(ExtIndex { childs: vec!["b".into(), "a".into()], ext_path: "/lib/main·add/".into() });
    let bytes = v.encode();
    let h = decode_xvalue_head(&bytes);
    assert_eq!(h.kind(), KIND_EXT_INDEX);
    assert_eq!(h.dims(), vec![2, 2, 8]);
    assert_eq!(
        decode_xvalue(&bytes),
        XValue::ExtIndex(ExtIndex { childs: vec!["a".into(), "b".into()], ext_path: "/lib/main·add/".into() })
    );
}

#[test]
fn head_fields() {
    let bytes = new_float64(&[1.0f64.to_bits(), 2.0f64.to_bits(), 3.0f64.to_bits()]).encode();
    let h = decode_xvalue_head(&bytes);
    assert_eq!(h.kind(), "float64");
    assert_eq!(h.dims(), vec![3]);
    assert_eq!(h.array_len(), 3);
    assert!(!h.is_ptr());
    assert_eq!(h.reference(), 0);
    assert_eq!(h.head_len() as usize + h.body_len as usize, bytes.len());
}
