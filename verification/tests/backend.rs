use lib::backend::{link_prefixes, parent_to_resolve, rejoin_parent, resolve_hop, Backend, KVPair};
use lib::consts::{KIND_INDEX, OBJ_SEP};
use lib::store::MemStore;
use lib::xvalue::XValue;
use lib::xvalue_byte::new_char32;
use lib::xvalue_codec::{is_none, new_ptr};
use lib::xvalue_index::new_ext_index;
use lib::xvalue_int::new_int64;

fn fresh() -> Backend<MemStore> {
    Backend::new(MemStore::new())
}

fn put(kv: &mut Backend<MemStore>, key: &str, v: XValue) {
    kv.set(&[KVPair { key: key.to_string(), val: v, raw: None }]).unwrap();
}

fn one(kv: &Backend<MemStore>, prefix: &str, name: &str) -> XValue {
    kv.get(prefix, &[name.to_string()], true).remove(0)
}

fn member(base: &str, name: &str) -> String {
    format!("{}{}{}", base, OBJ_SEP, name)
}

#[test]
fn test_set_get_roundtrip() {
    let mut kv = fresh();
    put(&mut kv, "/a", new_int64(&[42]));
    assert_eq!(one(&kv, "/", "a"), new_int64(&[42]));
}

#[test]
fn test_nested_set_list_get() {
    let mut kv = fresh();
    let dir = format!("{}/", member("/lib/math", "sum"));
    put(&mut kv, &format!("{}[0,0]", dir), new_char32(&['+' as u32]));
    put(&mut kv, &format!("{}[1,0]", dir), new_char32(&['-' as u32]));
    let children = kv.list(&dir, false, true);
    assert!(children.contains(&"[0,0]".to_string()));
    assert!(children.contains(&"[1,0]".to_string()));
    assert_eq!(one(&kv, &dir, "[0,0]"), new_char32(&['+' as u32]));
}

#[test]
fn test_dict_member() {
    let mut kv = fresh();
    put(&mut kv, &member("/lib/math", "Pi"), new_int64(&[314]));
    let dir = member("/lib/math", "");
    assert_eq!(one(&kv, &dir, "Pi"), new_int64(&[314]));
    assert!(kv.list(&dir, false, true).contains(&"Pi".to_string()));
}

#[test]
fn test_del_and_del_tree() {
    let mut kv = fresh();
    put(&mut kv, "/a/b/c", new_int64(&[1]));
    put(&mut kv, "/a/b/d", new_int64(&[2]));
    kv.del(&["/a/b/c".to_string()]).unwrap();
    assert!(is_none(&one(&kv, "/a/b/", "c")));
    assert_eq!(one(&kv, "/a/b/", "d"), new_int64(&[2]));
    kv.del_tree("/a/b/").unwrap();
    let remaining = kv.list("/a/", false, true);
    assert!(!remaining.contains(&"b".to_string()));
    assert!(!remaining.contains(&"b/".to_string()));
    assert!(is_none(&one(&kv, "/a/b/", "d")));
}

#[test]
fn test_soft_link() {
    let mut kv = fresh();
    put(&mut kv, "/real/x", new_int64(&[7]));
    put(&mut kv, "/alias", new_ptr(KIND_INDEX, "/real/"));
    assert_eq!(one(&kv, "/alias/", "x"), new_int64(&[7]));
    assert_eq!(kv.list("/alias/", false, true), kv.list("/real/", false, true));
}

#[test]
fn test_mkindex() {
    let mut kv = fresh();
    kv.mkindex("/x/y/z/", 0).unwrap();
    assert!(kv.list("/x/", false, true).contains(&"y/".to_string()));
    assert!(kv.list("/x/y/", false, true).contains(&"z/".to_string()));
    assert!(kv.mkindex("/x/q", 0).is_err());
}

#[test]
fn test_ext_index() {
    let mut kv = fresh();
    kv.mkindex("/ext/", 0).unwrap();
    put(&mut kv, "/ext/a", new_int64(&[1]));
    kv.ext_index("/loc/", "/ext/").unwrap();
    put(&mut kv, "/loc/b", new_int64(&[2]));
    let children = kv.list("/loc/", true, true);
    assert!(children.contains(&"a".to_string()));
    assert!(children.contains(&"b".to_string()));
    assert!(!kv.list("/loc/", false, true).contains(&"a".to_string()));
    assert_eq!(one(&kv, "/loc/", "a"), new_int64(&[1]));
    assert_eq!(one(&kv, "/loc/", "b"), new_int64(&[2]));
    assert!(kv.ext_index("/loc2", "/ext/").is_err());
}

#[test]
fn list_len_and_at() {
    let mut kv = fresh();
    put(&mut kv, "/d/a", new_int64(&[1]));
    put(&mut kv, "/d/b", new_int64(&[2]));
    let names = kv.list("/d/", false, true);
    assert_eq!(kv.list_len("/d/", false, true), names.len() as i32);
    for (i, n) in names.iter().enumerate() {
        assert_eq!(kv.list_at("/d/", i as i32, false, true).as_deref(), Some(n.as_str()));
    }
    assert_eq!(kv.list_at("/d/", names.len() as i32, false, true), None);
    assert_eq!(kv.list_at("/d/", -1, false, true), None);
}

#[test]
fn raw_bytes_and_copies() {
    let mut kv = fresh();
    let v = new_int64(&[10]);
    put(&mut kv, "/p/x", v.clone());
    assert_eq!(kv.get_raw("/p/x"), v.encode());
    assert!(kv.get_raw("/p/missing").is_empty());
    kv.cp("/p/x", "/q").unwrap();
    assert_eq!(one(&kv, "/", "q"), v);
    put(&mut kv, "/p/y", new_int64(&[20]));
    kv.cp_tree("/p/", "/r/").unwrap();
    assert_eq!(one(&kv, "/r/", "x"), v);
    assert_eq!(one(&kv, "/r/", "y"), new_int64(&[20]));
}

#[test]
fn parent_index_lists_written_keys() {
    let mut kv = fresh();
    put(&mut kv, "/top/leaf", new_int64(&[5]));
    assert!(kv.list("/", false, true).contains(&"top/".to_string()));
    assert!(kv.list("/top/", false, true).contains(&"leaf".to_string()));
    put(&mut kv, "/e/", new_ext_index(&[], "/top/"));
    assert_eq!(one(&kv, "/e/", "leaf"), new_int64(&[5]));
}

#[test]
fn clear_empties_the_store() {
    let mut kv = fresh();
    put(&mut kv, "/a", new_int64(&[1]));
    kv.clear().unwrap();
    assert!(is_none(&one(&kv, "/", "a")));
    assert!(kv.list("/", false, true).is_empty());
}

#[test]
fn parts_of_values() {
    let mut kv = fresh();
    put(&mut kv, "/v", new_int64(&[0x0102030405060708]));
    let raw = kv.get_raw("/v");
    let n = raw.len() as u32;
    assert_eq!(kv.get_part("/v", n - 8, 2), vec![8, 7]);
    assert_eq!(kv.get_part("/v", n - 1, 10), vec![1]);
    assert_eq!(kv.get_part("/v", n + 5, 3), Vec::<u8>::new());
    assert!(kv.get_part("/nothing", 0, 4).is_empty());
    kv.set_part("/v", n - 8, &[9, 9]).unwrap();
    assert_eq!(one(&kv, "/", "v"), new_int64(&[0x0102030405060909]));
    assert!(kv.set_part("/nothing", 0, &[1]).is_err());
}

#[test]
fn delete_then_read() {
    let mut kv = fresh();
    put(&mut kv, "/k/x", new_int64(&[1]));
    assert_eq!(one(&kv, "/k/", "x"), new_int64(&[1]));
    kv.del(&["/k/x".to_string()]).unwrap();
    assert!(is_none(&one(&kv, "/k/", "x")));
    assert!(kv.get_raw("/k/x").is_empty());
    assert!(!kv.list("/k/", false, true).contains(&"x".to_string()));
}

#[test]
fn write_then_read_each_kind() {
    let mut kv = fresh();
    let values = vec![
        new_int64(&[-3, 4]),
        new_char32(&['z' as u32]),
        new_ptr("int64", "/elsewhere"),
        lib::xvalue_bool::new_bool(&[false]),
    ];
    for (i, v) in values.into_iter().enumerate() {
        let key = format!("/w/k{}", i);
        put(&mut kv, &key, v.clone());
        assert_eq!(one(&kv, "/w/", &format!("k{}", i)), v);
    }
}

#[test]
fn refused_writes_leave_the_store() {
    let mut kv = fresh();
    put(&mut kv, "/keep", new_int64(&[3]));
    let before = kv.list("/", false, true);
    let bad = kv.set(&[KVPair { key: "/a//b".to_string(), val: new_int64(&[1]), raw: None }]);
    assert!(bad.is_err());
    let dir_value = kv.set(&[KVPair { key: "/leaf".to_string(), val: XValue::Index(vec![]), raw: None }]);
    assert!(dir_value.is_err());
    assert_eq!(kv.list("/", false, true), before);
    assert!(kv.get_raw("/leaf").is_empty());
}

#[test]
fn mkindex_reserves_rows() {
    let mut kv = fresh();
    kv.mkindex("/c/", 10).unwrap();
    let raw = kv.get_raw("/c/");
    let head = lib::xvalue::decode_xvalue_head(&raw);
    assert!(head.dims()[1] >= 10);
    assert!(kv.list("/", false, true).contains(&"c/".to_string()));
    put(&mut kv, "/c/x", new_int64(&[1]));
    assert_eq!(kv.list("/c/", false, true), vec!["x".to_string()]);
}

#[test]
fn cp_list_copies_one_member_level() {
    let mut kv = fresh();
    put(&mut kv, &member("/o", "a"), new_int64(&[1]));
    put(&mut kv, &member(&member("/o", "b"), "c"), new_int64(&[2]));
    kv.cp_list("/o", "/n").unwrap();
    assert_eq!(one(&kv, &member("/n", ""), "a"), new_int64(&[1]));
    assert!(is_none(&one(&kv, &member(&member("/n", "b"), ""), "c")));
    kv.cp_tree("/o", "/t").unwrap();
    assert_eq!(one(&kv, &member(&member("/t", "b"), ""), "c"), new_int64(&[2]));
    assert!(kv.list("/", false, true).contains(&"t".to_string()));
}

#[test]
fn ext_index_registered_and_removed() {
    let mut kv = fresh();
    kv.mkindex("/ext/", 0).unwrap();
    kv.ext_index("/loc/", "/ext/").unwrap();
    assert!(kv.list("/", false, true).contains(&"loc/".to_string()));
    assert!(kv.ext_index("/loc2/", "/loc/").is_err());
    kv.del_ext_index("/loc/").unwrap();
    assert!(kv.get_raw("/loc/").is_empty());
    assert!(!kv.list("/", false, true).contains(&"loc/".to_string()));
}

#[test]
fn refusal_messages_quote_the_key() {
    let mut kv = fresh();
    let e = kv.set(&[KVPair { key: "/a//b".to_string(), val: new_int64(&[1]), raw: None }]).unwrap_err();
    assert_eq!(e, "Set: double-slash in key \"/a//b\"");
    let e = kv.set(&[KVPair { key: "/leaf".to_string(), val: XValue::Index(vec![]), raw: None }]).unwrap_err();
    assert_eq!(e, "Set: directory-kind value at non-directory key \"/leaf\"");
    let e = kv.set_part("/nothing", 0, &[1]).unwrap_err();
    assert_eq!(e, "set_part: missing key /nothing");
}

#[test]
fn pointer_kind_must_match_target() {
    let mut kv = fresh();
    put(&mut kv, "/t", new_int64(&[9]));
    let bad = kv.set(&[KVPair { key: "/p".to_string(), val: new_ptr("bool", "/t"), raw: None }]);
    assert!(bad.is_err());
    assert!(kv.get_raw("/p").is_empty());
    kv.set(&[KVPair { key: "/p".to_string(), val: new_ptr("int64", "/t"), raw: None }]).unwrap();
    kv.set(&[KVPair { key: "/q".to_string(), val: new_ptr("bool", "/absent"), raw: None }]).unwrap();
}

#[test]
fn link_hops_over_prefix_values() {
    assert_eq!(link_prefixes("/a/b/c"), vec!["/a".to_string(), "/a/b".to_string(), "/a/b/c".to_string()]);
    assert!(link_prefixes("/").is_empty());
    let vals = vec![XValue::Nil, new_ptr(KIND_INDEX, "/x/"), XValue::Nil];
    assert_eq!(resolve_hop("/a/b/c", &vals), ("/x/c".to_string(), true));
    let last = vec![XValue::Nil, XValue::Nil, new_ptr(KIND_INDEX, "/y")];
    assert_eq!(resolve_hop("/a/b/c", &last), ("/y".to_string(), true));
    let none = vec![XValue::Nil, XValue::Nil, XValue::Nil];
    assert_eq!(resolve_hop("/a/b/c", &none), ("/a/b/c".to_string(), false));
    assert_eq!(resolve_hop("/", &[]), ("/".to_string(), false));
}

#[test]
fn map_members_list_in_row_major_order() {
    let mut kv = fresh();
    for c in ["[1,10]", "[10,0]", "[2,3]", "[1,2]"] {
        put(&mut kv, &member("/m", c), new_int64(&[1]));
    }
    assert_eq!(
        kv.list(&member("/m", ""), false, true),
        vec!["[1,2]".to_string(), "[1,10]".to_string(), "[2,3]".to_string(), "[10,0]".to_string()]
    );
}

#[test]
fn parent_resolution_pieces() {
    assert_eq!(parent_to_resolve("/a/b/c"), Some(("/a/b".to_string(), "c".to_string())));
    assert_eq!(parent_to_resolve("/a/b/"), Some(("/a".to_string(), "b".to_string())));
    assert_eq!(parent_to_resolve("/"), None);
    assert_eq!(rejoin_parent("/a/b/", "/x/", "b"), "/x/b/");
    assert_eq!(rejoin_parent("/a/b", "/x", "b"), "/x/b");
}

#[test]
fn mkindex_refuses_a_directory_holding_a_value() {
    let mut kv = fresh();
    put(&mut kv, "/a/", new_int64(&[1]));
    assert!(kv.mkindex("/a/b/", 0).is_err());
    assert!(kv.get_raw("/a/b/").is_empty());
}

#[test]
fn empty_batch_changes_nothing() {
    let mut kv = fresh();
    put(&mut kv, "/k", new_int64(&[5]));
    let before = kv.get_raw("/k");
    assert!(kv.set(&[]).is_ok());
    assert!(kv.del(&[]).is_ok());
    assert_eq!(kv.get_raw("/k"), before);
    assert_eq!(kv.list("/", false, true), vec!["k".to_string()]);
}

#[test]
fn deleting_a_missing_key_succeeds() {
    let mut kv = fresh();
    put(&mut kv, "/k", new_int64(&[5]));
    assert!(kv.del(&["/nothing".to_string()]).is_ok());
    assert_eq!(kv.list("/", false, true), vec!["k".to_string()]);
}

#[test]
fn member_coordinate_at_the_limit_is_refused() {
    let mut kv = fresh();
    let key = member(&member("/m", "[2147483647]"), "x");
    let r = kv.set(&[KVPair { key, val: new_int64(&[1]), raw: None }]);
    assert!(r.is_err());
    assert!(r.unwrap_err().contains("coordinate out of range"));
}

#[test]
fn cp_tree_leaves_prefix_siblings() {
    let mut kv = fresh();
    put(&mut kv, "/a/x", new_int64(&[1]));
    put(&mut kv, "/a2", new_int64(&[2]));
    kv.cp_tree("/a/", "/b/").unwrap();
    assert_eq!(kv.get_raw("/b/x"), kv.get_raw("/a/x"));
    assert!(kv.get_raw("/b2").is_empty());
    assert!(kv.cp_tree("/none/", "/c/").is_err());
}

#[test]
fn write_under_read_only_layer_is_refused() {
    let mut kv = fresh();
    put(&mut kv, "/ext/a", new_int64(&[1]));
    kv.ext_index("/loc/", "/ext/").unwrap();
    let r = kv.set(&[KVPair { key: "/loc/a".to_string(), val: new_int64(&[2]), raw: None }]);
    assert!(r.unwrap_err().starts_with(lib::consts::ERR_EXT_WRITE));
    assert_eq!(kv.get_raw("/loc/a"), kv.get_raw("/ext/a"));
    assert_eq!(one(&kv, "/loc/", "a"), new_int64(&[1]));
    let d = kv.del(&["/loc/a".to_string()]);
    assert!(d.unwrap_err().starts_with(lib::consts::ERR_EXT_DEL));
    assert!(!kv.get_raw("/ext/a").is_empty());
}

#[test]
fn cp_tree_copies_nested_and_member_indexes() {
    let mut kv = fresh();
    put(&mut kv, "/a/d/x", new_int64(&[1]));
    put(&mut kv, &member("/a", "m"), new_int64(&[2]));
    kv.cp_tree("/a", "/b").unwrap();
    assert_eq!(kv.list("/b/", false, true), kv.list("/a/", false, true));
    assert_eq!(kv.list("/b/d/", false, true), vec!["x".to_string()]);
    assert_eq!(kv.list(&member("/b", ""), false, true), vec!["m".to_string()]);
    assert_eq!(one(&kv, "/b/d/", "x"), new_int64(&[1]));
    assert_eq!(one(&kv, &member("/b", ""), "m"), new_int64(&[2]));
}

#[test]
fn writing_a_name_twice_lists_it_once() {
    let mut kv = fresh();
    put(&mut kv, "/p/x", new_int64(&[1]));
    let before = kv.list("/p/", false, true);
    put(&mut kv, "/p/x", new_int64(&[2]));
    assert_eq!(kv.list("/p/", false, true), before);
    assert_eq!(before, vec!["x".to_string()]);
}

#[test]
fn cp_tree_replaces_what_the_destination_held() {
    let mut kv = fresh();
    put(&mut kv, "/a/x", new_int64(&[1]));
    put(&mut kv, "/b/old", new_int64(&[9]));
    kv.cp_tree("/a", "/b").unwrap();
    assert!(kv.get_raw("/b/old").is_empty());
    assert_eq!(kv.get_raw("/b/x"), kv.get_raw("/a/x"));
    assert_eq!(kv.list("/b/", false, true), vec!["x".to_string()]);
}
