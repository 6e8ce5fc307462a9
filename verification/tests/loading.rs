use std::sync::Arc;
use putki::lexed::LexedKv;
use putki::lexer::{get_int, get_string};
use putki::loadall::LoadAll;
use putki::ptr::{ptr_from_data, Ptr, PtrInkiResolver};
use putki::shared::TypeDescriptor;
use putki::source::{resolve_from, InkiResolver, ObjectLoader, ParseFromKV, ResolveStatus};

#[test]
fn test_txty_1() {
    LoadAll::from_txty_data(
        r#"
		@MainObject main/obj {
			Stuff: @SubObject id-name {
				Value: "128"
			}
		}
	"#,
    );
}

#[derive(Debug, Clone)]
struct PointedTo {
    value: i32,
}

#[derive(Clone)]
struct PtrStruct1 {
    pub ptr: Ptr<PointedTo, LoadAll>,
}

impl TypeDescriptor for PointedTo {
    const TAG: &'static str = "PointedTo";
}

impl TypeDescriptor for PtrStruct1 {
    const TAG: &'static str = "PtrStruct1";
}

impl<L: ObjectLoader> ParseFromKV<L> for PointedTo {
    fn parse(kv: &LexedKv, _pctx: &Arc<InkiResolver<L>>) -> Self {
        Self { value: get_int(kv.get("Value"), 0) }
    }
}

impl ParseFromKV<LoadAll> for PtrStruct1 {
    fn parse(kv: &LexedKv, pctx: &Arc<InkiResolver<LoadAll>>) -> Self {
        Self { ptr: Ptr::new(pctx.clone(), get_string(kv.get("Ptr"), "").as_str()) }
    }
}

#[test]
fn test_ptr_1() {
    let la = Arc::new(LoadAll::from_txty_data(
        r#"
		@PointedTo main {
			Value: 123
		}
		@PointedTo pto1 {
			Value: 321
		}
		@PtrStruct1 ptr1 {
			Ptr: "pto1"
		}
		@PtrStruct1 ptr2 {
			Ptr: ""
		}
	"#,
    ));

    let resolver = Arc::new(InkiResolver::new(la));
    if let ResolveStatus::Resolved(pto) = resolve_from::<PointedTo, LoadAll>(&resolver, "main") {
        assert_eq!(pto.value, 123);
    } else {
        panic!("Could not resolve main");
    }
    if let ResolveStatus::Resolved(pto) = resolve_from::<PtrStruct1, LoadAll>(&resolver, "ptr1") {
        assert_eq!(pto.ptr.unwrap().value, 321);
    } else {
        panic!("Could not resolve main");
    }
    if let ResolveStatus::Resolved(pto) = resolve_from::<PtrStruct1, LoadAll>(&resolver, "ptr2") {
        assert!(pto.ptr.resolve_notrack().is_none());
    } else {
        panic!("Could not resolve ptr2");
    }
}

#[test]
fn nested_objects_are_indexed_by_id() {
    let la = LoadAll::from_txty_data(
        r#"
		@MainObject main/obj {
			Stuff: @SubObject id-name {
				Value: "128"
			}
			List: [ @SubObject in-list { Value: 1 }, @SubObject { Value: 2 } ]
		}
	"#,
    );
    let objs = la.objects();
    let paths: Vec<&str> = objs.iter().map(|o| o.0).collect();
    assert_eq!(paths, vec!["id-name", "in-list", "main/obj"]);
    assert_eq!(objs[0].1, "SubObject");
    match la.load("id-name") {
        Some((t, kv)) => {
            assert_eq!(t, "SubObject");
            assert_eq!(get_string(kv.get("Value"), ""), "128");
        }
        None => panic!("id-name not indexed"),
    }
    assert!(la.load("missing").is_none());
}

#[test]
fn a_later_object_replaces_an_earlier_one() {
    let mut la = LoadAll::empty();
    la.index_txty_data("@A x { v: 1 }");
    la.index_txty_data("@B x { v: 2 }");
    let (t, kv) = la.load("x").unwrap();
    assert_eq!(t, "B");
    assert_eq!(get_int(kv.get("v"), 0), 2);
}

#[test]
fn json_objects_are_indexed_by_file_path() {
    let mut la = LoadAll::empty();
    la.index_jsony_data(
        "dir\\sub\\thing.json",
        r##"{ "type": "Thing", "data": { "v": 5 }, "aux": [ { "ref": "#x", "type": "Aux", "data": { } } ] }"##,
    );
    let objs = la.objects();
    let paths: Vec<&str> = objs.iter().map(|o| o.0).collect();
    assert_eq!(paths, vec!["dir/sub/thing", "dir/sub/thing#x"]);
    assert_eq!(objs[0].1, "Thing");
    assert_eq!(get_int(objs[0].2.get("v"), 0), 5);
    assert_eq!(objs[1].1, "Aux");
}

#[test]
fn unresolved_paths_fail() {
    let la = Arc::new(LoadAll::from_txty_data("@PointedTo a { Value: 1 }"));
    let resolver = Arc::new(InkiResolver::new(la));
    assert!(matches!(resolve_from::<PointedTo, LoadAll>(&resolver, "b"), ResolveStatus::Failed));
    let p: Ptr<PointedTo, LoadAll> = Ptr::new(resolver.clone(), "b");
    assert!(p.resolve_notrack().is_none());
    assert_eq!(p.get_target_path(), Some("b"));
    let n: Ptr<PointedTo, LoadAll> = Ptr::null();
    assert_eq!(n.get_target_path(), None);
}

#[test]
fn inline_and_anonymous_pointers() {
    let la = Arc::new(LoadAll::from_txty_data(
        "@Holder h { named: @PointedTo inl { Value: 7 }, anon: @PointedTo { Value: 9 }, bare: target, empty: \"\" }",
    ));
    let resolver = Arc::new(InkiResolver::new(la.clone()));
    let (_, kv) = la.load("h").unwrap();
    let named: Ptr<PointedTo, LoadAll> = ptr_from_data(&resolver, kv.get("named").unwrap());
    assert_eq!(named.get_target_path(), Some("inl"));
    assert_eq!(named.unwrap().value, 7);
    let anon: Ptr<PointedTo, LoadAll> = ptr_from_data(&resolver, kv.get("anon").unwrap());
    let path = anon.get_target_path().unwrap().to_string();
    assert!(path.starts_with(":anon:PointedTo::"));
    let hash: u64 = path[":anon:PointedTo::".len()..].parse().unwrap();
    assert_eq!(hash, seahash::hash(b"{Value:9,}"));
    assert_eq!(anon.unwrap().value, 9);
    let bare: Ptr<PointedTo, LoadAll> = ptr_from_data(&resolver, kv.get("bare").unwrap());
    assert_eq!(bare.get_target_path(), Some("target"));
    let empty: Ptr<PointedTo, LoadAll> = ptr_from_data(&resolver, kv.get("empty").unwrap());
    assert_eq!(empty.get_target_path(), None);
}
