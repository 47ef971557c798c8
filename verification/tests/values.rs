use lib::abi_codec::{build_tlv, err_bytes, head_record, in_place_ok, parse_langtype_dims};
use lib::consts::{KIND_CHAR, KIND_DICT, KIND_INDEX, KIND_MAP, KIND_RWFUNC, KIND_RWIR, KIND_TIME};
use lib::xvalue::{decode_xvalue_head, ExtIndex, XValue, STORETYPE_ARRAYND};
use lib::xvalue_bool::new_bool;
use lib::xvalue_byte::{new_char32, new_char_ascii, new_char_byte};
use lib::backend::{pair_fits_check, KVPair};
use lib::xvalue_codec::{decode_xvalue, encode_fits_check, new_ptr, ptr_target};
use lib::xvalue_duration::{decode_duration, duration_string, encode_duration, new_duration};
use lib::xvalue_float::{new_float32, new_float64};
use lib::xvalue_index::{new_ext_index, new_index};
use lib::xvalue_int::{new_int16, new_int32, new_int64, new_int8};
use lib::xvalue_obj::{new_dict, new_map};
use lib::xvalue_rwir::{decode_rwfunc, decode_rwir, new_rwfunc, new_rwfunc_with_types, new_rwir};
use lib::xvalue_text::{bool_string, index_value_string};
use lib::xvalue_time::{decode_time, encode_time, format_time, new_time};
use lib::xvalue_uint::{new_uint16, new_uint32, new_uint64, new_uint8};

fn stable(v: XValue) {
    let b1 = v.encode();
    let d = decode_xvalue(&b1);
    assert_eq!(d.encode(), b1, "re-encoding changed the bytes of {:?}", v);
}

fn s(v: &[&str]) -> Vec<String> {
    v.iter().map(|x| x.to_string()).collect()
}

#[test]
fn test_roundtrip_all_types() {
    stable(XValue::Nil);
    stable(new_int8(&[0, 1, -1, 127, -128]));
    stable(new_int16(&[0, 1, -1, 32767, -32768]));
    stable(new_int32(&[0, 1, -1, i32::MAX, i32::MIN]));
    stable(new_int64(&[0, 1, -1, i64::MAX, i64::MIN]));
    stable(new_uint8(&[0, 1, 255]));
    stable(new_uint16(&[0, 1, 65535]));
    stable(new_uint32(&[0, 1, u32::MAX]));
    stable(new_uint64(&[0, 1, u64::MAX]));
    stable(new_float32(&[0.0f32.to_bits(), (-1.5f32).to_bits(), f32::MAX.to_bits(), f32::MIN.to_bits()]));
    stable(new_float64(&[0.0f64.to_bits(), (-1.5f64).to_bits(), f64::MAX.to_bits(), f64::MIN.to_bits()]));
    stable(new_bool(&[true, false, true]));
    stable(new_char_byte(b"hello"));
    stable(new_char_ascii(b"hello"));
    stable(new_char32(&[0x48, 0x65, 0x6c, 0x6c, 0x6f]));
    stable(new_dict());
    stable(new_index(&s(&["a", "b"])));
    stable(new_ext_index(&s(&["a"]), "/lib/init/"));
    stable(new_rwir(2, 1, "rwir add(A:int64, B:int64) -> (C:int64)"));
    stable(new_rwfunc(5, 2, 1));
    stable(new_rwfunc_with_types(5, 2, 1, &s(&["int64", "int64"])));
    stable(new_time(&[0, 1_700_000_000_000_000_000]));
    stable(new_duration(&[0, 1_500_000_000, 250_000_000]));
    stable(new_ptr(KIND_CHAR, "[0,-1]"));
}

#[test]
fn test_ptr_encoding() {
    let b = new_ptr(KIND_CHAR, "[0,-1]").encode();
    let h = decode_xvalue_head(&b);
    assert_eq!(h.kind(), KIND_CHAR);
    assert!(h.is_ptr());
    assert_eq!(h.reference(), 1);
    let d = decode_xvalue(&b);
    assert_eq!(ptr_target(&d), "[0,-1]");
}

#[test]
fn test_int64_array_encoding() {
    let b = new_int64(&[1, 2, 3]).encode();
    let h = decode_xvalue_head(&b);
    assert_eq!(h.kind(), "int64");
    assert_eq!(h.reference(), 0);
    assert_eq!(h.dims(), vec![3]);
    assert_eq!(h.array_len(), 3);
    assert_eq!(h.body_len, 24);
}

#[test]
fn test_duration_string() {
    assert_eq!(duration_string(0), "0s");
    assert_eq!(duration_string(700), "700ns");
    assert_eq!(duration_string(1500), "1.5\u{00B5}s");
    assert_eq!(duration_string(500_000), "500\u{00B5}s");
    assert_eq!(duration_string(250_000_000), "250ms");
    assert_eq!(duration_string(1_500_000_000), "1.5s");
    assert_eq!(duration_string(90_000_000_000), "1m30s");
    assert_eq!(duration_string(3_661_000_000_000), "1h1m1s");
    assert_eq!(duration_string(-1_500_000_000), "-1.5s");
}

#[test]
fn duration_string_extremes() {
    assert_eq!(duration_string(1), "1ns");
    assert_eq!(duration_string(1_000), "1\u{00B5}s");
    assert_eq!(duration_string(1_234_567), "1.234567ms");
    assert_eq!(duration_string(3_600_000_000_000), "1h0m0s");
    assert_eq!(duration_string(i64::MIN), "-2562047h47m16.854775808s");
    assert_eq!(duration_string(i64::MAX), "2562047h47m16.854775807s");
}

#[test]
fn duration_and_time_bodies() {
    let b = encode_duration(&[1, -1]);
    let h = decode_xvalue_head(&b);
    assert_eq!(h.kind(), "duration");
    let body = h.body(&b);
    assert_eq!(decode_duration(&body), vec![1, -1]);
    let t = encode_time(&[5]);
    let th = decode_xvalue_head(&t);
    assert_eq!(th.kind(), KIND_TIME);
    assert_eq!(decode_time(&th.body(&t)), vec![5]);
    assert_eq!(decode_time(&[1, 0, 0, 0, 0, 0, 0, 0, 9]), vec![1]);
}

#[test]
fn format_time_utc() {
    assert_eq!(format_time(0), "1970/01/01 00:00:00");
    assert_eq!(format_time(1_700_000_000_000_000_000), "2023/11/14 22:13:20");
    assert_eq!(format_time(-1), "1969/12/31 23:59:59");
    assert_eq!(format_time(951_782_400_000_000_000), "2000/02/29 00:00:00");
    assert_eq!(format_time(i64::MIN), "1677/09/21 00:12:43");
    assert_eq!(format_time(i64::MAX), "2262/04/11 23:47:16");
}

#[test]
fn rwir_fields() {
    let x = new_rwir(2, 1, "add(A,B)->(C)");
    let b = x.encode();
    let h = decode_xvalue_head(&b);
    assert_eq!(h.kind(), KIND_RWIR);
    assert_eq!(h.array_len(), 1);
    let r = decode_rwir(&h.body(&b));
    assert_eq!(r.num_reads(), 2);
    assert_eq!(r.num_writes(), 1);
    assert_eq!(r.sig(), "add(A,B)->(C)");
    assert_eq!(r.encode(), b);
    let w = decode_rwir(&[0x34, 0x12, 0xff, 0xff]);
    assert_eq!(w.num_reads(), 0x1234);
    assert_eq!(w.num_writes(), 65535);
    assert_eq!(w.sig(), "");
}

#[test]
fn rwfunc_fields() {
    let x = new_rwfunc_with_types(5, 2, 1, &s(&["int64", "char/utf32"]));
    let b = x.encode();
    let h = decode_xvalue_head(&b);
    assert_eq!(h.kind(), KIND_RWFUNC);
    let f = decode_rwfunc(&h.body(&b), h.array_len());
    assert_eq!(f.num_insts(), 5);
    assert_eq!(f.num_reads(), 2);
    assert_eq!(f.num_writes(), 1);
    assert_eq!(f.param_types(), vec!["int64", "char/utf32"]);
    assert_eq!(f.encode(), b);
    let g = decode_rwfunc(&h.body(&new_rwfunc(3, 1, 0).encode()), 3);
    assert!(g.param_types().is_empty());
    let trunc = new_rwir(70_000, -1, "");
    match trunc {
        XValue::Opaque(o) => assert_eq!(o.body, vec![0x70, 0x11, 0xff, 0xff]),
        other => panic!("unexpected value {:?}", other),
    }
}

#[test]
fn empty_containers() {
    match new_dict() {
        XValue::Opaque(o) => {
            assert_eq!(o.kind, KIND_DICT);
            assert!(o.body.is_empty());
            assert_eq!(o.array_len, 0);
        },
        other => panic!("unexpected value {:?}", other),
    }
    match new_map(&[2, 3]) {
        XValue::MapVal(m) => {
            assert_eq!(m.langtype, KIND_MAP);
            assert_eq!(m.dims, vec![2, 3]);
        },
        other => panic!("unexpected value {:?}", other),
    }
}

#[test]
fn display_texts() {
    let e = ExtIndex { childs: s(&["a", "b"]), ext_path: "/lib/".to_string() };
    assert_eq!(e.value_string(), "(2) \u{2026}/lib/");
    let e2 = ExtIndex { childs: vec![], ext_path: String::new() };
    assert_eq!(e2.value_string(), "(empty ext)");
    let e3 = ExtIndex { childs: s(&["x"]), ext_path: String::new() };
    assert_eq!(e3.value_string(), "(1)");
    assert_eq!(index_value_string(&s(&[""])), "(empty)");
    assert_eq!(index_value_string(&s(&["a", "b", "c"])), "(3)");
    assert_eq!(index_value_string(&[]), "(0)");
    assert_eq!(bool_string(true), "true");
    assert_eq!(bool_string(false), "false");
}

#[test]
fn abi_head_building() {
    assert_eq!(parse_langtype_dims("[2,3]float64"), vec![2, 3]);
    assert_eq!(parse_langtype_dims("[2,,x]int8"), vec![2, 0]);
    assert_eq!(parse_langtype_dims("int64"), Vec::<i32>::new());
    assert_eq!(parse_langtype_dims("[1,2"), Vec::<i32>::new());
    let b = build_tlv(0, STORETYPE_ARRAYND, 1, 7, "[2,3]float64", 48);
    let h = decode_xvalue_head(&b);
    assert_eq!(h.dims(), vec![2, 3]);
    assert_eq!(h.langtype, "[2,3]float64");
    assert!(h.ro);
    assert_eq!(h.vid, 7);
    assert_eq!(h.body_len, 48);
    assert_eq!(b.len(), h.head_len() as usize + 48);
    assert!(in_place_ok(&b, &h, 48));
    assert!(!in_place_ok(&b, &h, 47));
    assert!(!in_place_ok(&[], &h, 48));
    let rec = head_record(&h);
    assert_eq!(rec.ndim, 2);
    assert_eq!(rec.dims, [2, 3, 0, 0, 0, 0, 0, 0]);
    assert_eq!(rec.langtype_len, 12);
    assert_eq!(&rec.langtype[..12], b"[2,3]float64");
    assert_eq!(rec.langtype[12], 0);
    assert_eq!(rec.body_offset, h.head_len());
    assert_eq!(rec.ro, 1);
    assert_eq!(err_bytes("kvspace: boom", 5), b"kvsp\0".to_vec());
    assert_eq!(err_bytes("ok", 10), b"ok\0".to_vec());
    assert_eq!(err_bytes("abc", 1), b"\0".to_vec());
}

#[test]
fn index_kind_constant() {
    let b = new_index(&s(&["b", "a"])).encode();
    assert_eq!(decode_xvalue_head(&b).kind(), KIND_INDEX);
}

#[test]
fn int64_head_bytes_are_fixed() {
    let one = new_int64(&[1]).encode();
    assert_eq!(
        one,
        vec![18, 0, 0, 1, 0, 0, 0, 0, 0, 8, 0, 0, 0, b'i', b'n', b't', b'6', b'4', 1, 0, 0, 0, 0, 0, 0, 0]
    );
    let three = new_int64(&[1, 2, 3]).encode();
    let mut want: Vec<u8> = vec![26, 0, 0, 2, 0, 0, 0, 0, 0, 24, 0, 0, 0, 1, 3, 0, 0, 0];
    want.extend_from_slice(b"[3]int64");
    for v in [1u64, 2, 3] {
        want.extend_from_slice(&v.to_le_bytes());
    }
    assert_eq!(three, want);
}

#[test]
fn ordinary_values_fit_their_encoding() {
    assert!(encode_fits_check(&new_int64(&[1, 2, 3])));
    assert!(encode_fits_check(&new_index(&["a".to_string()])));
    assert!(encode_fits_check(&new_ptr("int64", "/a")));
    let p = KVPair { key: "/a".to_string(), val: new_int64(&[1]), raw: None };
    assert!(pair_fits_check(&p));
}
