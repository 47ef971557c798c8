use lib::xvalue_index::{decode_ext_index, decode_index, encode_ext_index, encode_index, encode_index_grow, grow_cap};

fn names(v: &[&str]) -> Vec<String> {
    v.iter().map(|s| s.to_string()).collect()
}

#[test]
fn index_roundtrip_align8() {
    let (dims, body) = encode_index(&names(&["yy", "x", "zzz"]));
    assert_eq!(dims, vec![3, 3, 8]);
    assert_eq!(body.len(), 24);
    assert_eq!(decode_index(&body, &dims), vec!["x", "yy", "zzz"]);
}

#[test]
fn xvalue_index_index_empty() {
    let (dims, body) = encode_index(&[]);
    assert_eq!(dims, vec![0, 0, 0]);
    assert!(body.is_empty());
}

#[test]
fn grow_reserves_cap() {
    let (dims, body) = encode_index_grow(&names(&["x"]), 4, 0);
    assert_eq!(dims, vec![1, 4, 8]);
    assert_eq!(body.len(), 32);
    assert_eq!(decode_index(&body, &dims), vec!["x"]);
}

#[test]
fn grow_cap_doubling() {
    assert_eq!(grow_cap(0, 1), 1);
    assert_eq!(grow_cap(4, 4), 4);
    assert_eq!(grow_cap(4, 5), 8);
    assert_eq!(grow_cap(4, 20), 32);
}

#[test]
fn xvalue_index_ext_index_roundtrip() {
    let (dims, body) = encode_ext_index("/p", &names(&["a"]));
    assert_eq!(dims, vec![1, 1, 8]);
    assert_eq!(body.len(), 2 + 8);
    let e = decode_ext_index(&body, &dims);
    assert_eq!(e.ext_path, "/p");
    assert_eq!(e.childs, vec!["a"]);
}
