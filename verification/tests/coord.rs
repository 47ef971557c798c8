use lib::consts::{KIND_CHAR, KIND_CHAR_ASCII, KIND_CHAR_UTF8, KIND_FLOAT64, KIND_INT16, KIND_INT8, KIND_INDEX};
use lib::coord::{cmp_coord, coord_in_dims, format_coord, grow_dim, valid_member_name};
use std::cmp::Ordering;
use lib::xvalue_byte::{new_char, new_char32, new_char_ascii, new_char_byte};
use lib::xvalue_codec::elem_size;

#[test]
fn coordinate_text() {
    assert_eq!(format_coord(&[0, 12, 3]), "[0,12,3]");
    assert_eq!(format_coord(&[7]), "[7]");
    assert_eq!(format_coord(&[]), "[]");
}

#[test]
fn coordinates_within_dims() {
    assert!(coord_in_dims(&[0, 2], &[1, 3]));
    assert!(!coord_in_dims(&[1, 2], &[1, 3]));
    assert!(!coord_in_dims(&[-1, 0], &[2, 2]));
    assert!(!coord_in_dims(&[0], &[2, 2]));
}

#[test]
fn one_axis_growth() {
    assert_eq!(grow_dim(&[], 4), vec![5]);
    assert_eq!(grow_dim(&[10], 4), vec![10]);
    assert_eq!(grow_dim(&[3], 4), vec![5]);
}

#[test]
fn member_name_rules() {
    assert!(valid_member_name("alpha"));
    assert!(valid_member_name("12.24"));
    assert!(!valid_member_name(""));
    assert!(!valid_member_name("a/b"));
    assert!(!valid_member_name("a\u{b7}b"));
    assert!(!valid_member_name("[0]"));
    assert!(!valid_member_name("x\ty"));
    assert!(!valid_member_name("x\u{2026}"));
}

#[test]
fn char_values_by_kind() {
    assert_eq!(new_char(KIND_CHAR_UTF8, "h\u{e9}"), new_char_byte("h\u{e9}".as_bytes()));
    assert_eq!(new_char(KIND_CHAR_ASCII, "hi"), new_char_ascii(b"hi"));
    assert_eq!(new_char(KIND_CHAR, "h\u{e9}"), new_char32(&['h' as u32, 0xe9]));
}

#[test]
fn element_sizes() {
    assert_eq!(elem_size(KIND_INT8), 1);
    assert_eq!(elem_size(KIND_INT16), 2);
    assert_eq!(elem_size(KIND_FLOAT64), 8);
    assert_eq!(elem_size(KIND_CHAR), 4);
    assert_eq!(elem_size(KIND_INDEX), 0);
}

#[test]
fn coordinates_order_by_value() {
    assert_eq!(cmp_coord("[2]", "[10]"), Ordering::Less);
    assert_eq!(cmp_coord("[1,5]", "[2,0]"), Ordering::Less);
    assert_eq!(cmp_coord("[2.5]", "[10.5]"), Ordering::Less);
    assert_eq!(cmp_coord("[10]", "[2.5]"), Ordering::Greater);
    assert_eq!(cmp_coord("[2.5]", "[3]"), Ordering::Less);
    assert_eq!(cmp_coord("[0]", "[0.5]"), Ordering::Less);
    assert_eq!(cmp_coord("[0.45]", "[0.5]"), Ordering::Less);
    assert_eq!(cmp_coord("[1]", "[1,0]"), Ordering::Less);
    assert_eq!(cmp_coord("[9]", "a"), Ordering::Less);
    assert_eq!(cmp_coord("a", "[9]"), Ordering::Greater);
    assert_eq!(cmp_coord("[1.0]", "[1]"), cmp_coord("[1]", "[1.0]").reverse());
    assert_eq!(cmp_coord("[3]", "[3]"), Ordering::Equal);
}

#[test]
fn written_coordinates_parse_back() {
    let v: Vec<i64> = vec![3, 0, 12];
    assert_eq!(lib::coord::parse_coord(&format_coord(&v)), Some(v));
    assert_eq!(lib::coord::parse_coord("[1.5]"), None);
    assert_eq!(lib::coord::parse_coord("[]"), None);
}
