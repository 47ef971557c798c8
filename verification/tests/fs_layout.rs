use lib::fs_layout::{
    add_order, classify_entry, dims_csv, fs_parent_name, fs_rel_path, fs_set_action, hex_decode, hex_encode,
    is_dir_key, is_member_dir, key_of_rel, order_children, order_text, parse_map_dims, parse_order, remove_order,
    suffix_for, EntryAction, FsSetAction,
};
use lib::xvalue_index::{new_ext_index, new_index, new_map_index};
use lib::xvalue_int::new_int64;

fn s(v: &[&str]) -> Vec<String> {
    v.iter().map(|x| x.to_string()).collect()
}

#[test]
fn hex_names() {
    assert_eq!(hex_encode(b"/a"), "2f61");
    assert_eq!(hex_encode("/a\u{00B7}b".as_bytes()), "2f61c2b762");
    assert_eq!(hex_encode(&[]), "");
    assert_eq!(hex_decode("2f61c2b762"), "/a\u{00B7}b".as_bytes().to_vec());
    assert_eq!(hex_decode("FF0a"), vec![255, 10]);
    assert_eq!(hex_decode("+f"), vec![15]);
    for k in ["/", "/x/y", "/lib/m\u{00B7}[0,1]"] {
        assert_eq!(hex_decode(&hex_encode(k.as_bytes())), k.as_bytes().to_vec());
    }
}

#[test]
fn key_paths() {
    assert_eq!(fs_rel_path("/a\u{00B7}b/c"), "a\u{00B7}/b/c");
    assert_eq!(fs_rel_path("/x/\u{00B7}y"), "x/\u{00B7}y");
    assert_eq!(fs_rel_path("/"), "");
    assert_eq!(fs_rel_path("/m\u{00B7}\u{00B7}"), "m\u{00B7}/\u{00B7}/");
    assert_eq!(key_of_rel(""), "/");
    assert_eq!(key_of_rel("a\u{00B7}/b/c"), "/a\u{00B7}b/c");
    for k in ["/", "/a", "/a\u{00B7}b\u{00B7}c", "/a\u{00B7}/b", "/x/\u{00B7}y", "/m\u{00B7}\u{00B7}/"] {
        assert_eq!(key_of_rel(&fs_rel_path(k)), k);
    }
    assert_eq!(key_of_rel(&fs_rel_path("/\u{00B7}/")), "/\u{00B7}");
}

#[test]
fn dir_keys_and_parents() {
    assert!(is_dir_key("/a/"));
    assert!(is_dir_key("/a\u{00B7}"));
    assert!(!is_dir_key("/a"));
    assert_eq!(suffix_for("/a\u{00B7}"), "\u{00B7}");
    assert_eq!(suffix_for("/a/"), "/");
    assert_eq!(fs_parent_name("/a/b/"), ("/a/".to_string(), "b".to_string()));
    assert_eq!(fs_parent_name("/a\u{00B7}"), ("/".to_string(), "a".to_string()));
    assert_eq!(fs_parent_name("/x"), ("/".to_string(), "x".to_string()));
    assert!(is_member_dir("/lib/math\u{00B7}/"));
    assert!(!is_member_dir("/lib/math/"));
    assert!(!is_member_dir("/"));
}

#[test]
fn order_files() {
    assert_eq!(parse_order(b"b\n\na\n"), s(&["b", "a"]));
    assert_eq!(parse_order(b""), Vec::<String>::new());
    assert_eq!(order_text(&s(&["b", "a"])), "b\na\n");
    assert_eq!(add_order(&s(&["b"]), "a"), Some(s(&["b", "a"])));
    assert_eq!(add_order(&s(&["b", "a"]), "a"), None);
    assert_eq!(remove_order(&s(&["b", "a", "b"]), "b"), s(&["a"]));
    let order = s(&["c", "a", "c", "b"]);
    let children = s(&["a", "x", "b", "c", "y", "a"]);
    assert_eq!(order_children(&children, &order), s(&["c", "a", "a", "b", "x", "y"]));
    assert_eq!(order_children(&children, &[]), children);
}

#[test]
fn map_markers() {
    assert_eq!(parse_map_dims(b"2,3"), vec![2, 3]);
    assert_eq!(parse_map_dims(b"x,,4,-1"), vec![0, 4, -1]);
    assert_eq!(parse_map_dims(b""), Vec::<i32>::new());
    assert_eq!(dims_csv(&[2, 3]), "2,3");
    assert_eq!(dims_csv(&[]), "");
    assert_eq!(parse_map_dims(dims_csv(&[7, -2, 0]).as_bytes()), vec![7, -2, 0]);
}

#[test]
fn directory_entries() {
    assert!(matches!(classify_entry("__order__", false, false, false), EntryAction::Skip));
    assert!(matches!(classify_entry("math\u{00B7}", true, false, false), EntryAction::Flatten));
    match classify_entry("init\u{00B7}", true, false, true) {
        EntryAction::Emit(v) => assert_eq!(v, s(&["init\u{00B7}"])),
        _ => panic!("expected entries"),
    }
    match classify_entry("lib", true, true, false) {
        EntryAction::Emit(v) => assert_eq!(v, s(&["lib/", "lib"])),
        _ => panic!("expected entries"),
    }
    match classify_entry("x", false, false, false) {
        EntryAction::Emit(v) => assert_eq!(v, s(&["x"])),
        _ => panic!("expected entries"),
    }
}

#[test]
fn set_actions() {
    match fs_set_action("/loc/", &new_ext_index(&[], "/ext/")) {
        FsSetAction::ExtDir { parent, entry, ext_path } => {
            assert_eq!((parent.as_str(), entry.as_str(), ext_path.as_str()), ("/", "loc/", "/ext/"));
        },
        _ => panic!("expected an extension directory"),
    }
    match fs_set_action("/m\u{00B7}", &new_map_index(&[2, 3])) {
        FsSetAction::MapDir { parent, entry, dims } => {
            assert_eq!((parent.as_str(), entry.as_str(), dims.as_str()), ("/", "m\u{00B7}", "2,3"));
        },
        _ => panic!("expected a map directory"),
    }
    match fs_set_action("/a/b/", &new_index(&[])) {
        FsSetAction::IndexDir { parent, entry } => assert_eq!((parent.as_str(), entry.as_str()), ("/a/", "b/")),
        _ => panic!("expected an index directory"),
    }
    match fs_set_action("/a/b\u{00B7}x", &new_int64(&[1])) {
        FsSetAction::Leaf { parent, name } => assert_eq!((parent.as_str(), name.as_str()), ("/a/b\u{00B7}", "x")),
        _ => panic!("expected a leaf"),
    }
}

#[test]
fn leaf_marker_dims() {
    let kids = vec!["[0]".to_string(), "[3]".to_string()];
    assert_eq!(lib::fs_layout::leaf_map_dims("/m\u{b7}", "[5]", false, &kids), Some("6".to_string()));
    assert_eq!(lib::fs_layout::leaf_map_dims("/m\u{b7}", "[1]", false, &kids), Some("4".to_string()));
    assert_eq!(lib::fs_layout::leaf_map_dims("/m\u{b7}", "[5]", true, &kids), None);
    assert_eq!(lib::fs_layout::leaf_map_dims("/m/", "[5]", false, &kids), None);
    assert_eq!(lib::fs_layout::leaf_map_dims("/m\u{b7}", "x", false, &kids), None);
}
