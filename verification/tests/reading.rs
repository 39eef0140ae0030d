use rustdoc_seeker::decoder::{DecodeError, IndexItem, ParentEntry};
use rustdoc_seeker::item::EntityKind;
use rustdoc_seeker::record::{
    packages_of_parsed, parse_packages, read_index, read_item, read_items, read_packages,
    read_parent, read_parents,
};
use rustdoc_seeker::{DocItem, RustDoc, TypeItem};
use serde_json::Value;

const ASYNC_STD: &str = r#"{"async_std":{"doc":"Async version of the Rust standard library","i":[[23,"main","async_std","Enables an async main function.",null,null],[23,"test","","Enables an async test function.",null,null]],"p":[[8,"Future"],[8,"implfuture"],[4,"result"],[4,"SeekFrom"]]}}"#;

fn value(text: &str) -> Value {
    serde_json::from_str(text).unwrap()
}

fn attribute_macro(name: &str, desc: &str) -> DocItem {
    DocItem {
        name: TypeItem { kind: EntityKind::AttributeMacro, name: name.to_string() },
        parent: None,
        path: "async_std".to_string(),
        desc: desc.to_string(),
    }
}

#[test]
fn test_parser() {
    let data = r#"{"async_std":{"doc":"Async version of the Rust standard library","i":[[23,"main","async_std","Enables an async main function.",null,null],[23,"test","","Enables an async test function.",null,null]],"p":[[8,"implfuture"],[8,"result"],[6,"Output"],[6,"SeekFrom"]]}}"#;
    let index = RustDoc::from_json(data).unwrap();
    let value = format!("{:?}", index);
    assert_eq!(value, "RustDoc { items: [DocItem { name: TypeItem { kind: AttributeMacro, name: \"main\" }, parent: None, path: \"async_std\", desc: \"Enables an async main function.\" }, DocItem { name: TypeItem { kind: AttributeMacro, name: \"test\" }, parent: None, path: \"async_std\", desc: \"Enables an async test function.\" }] }");
    assert_eq!(
        index.into_items(),
        vec![
            attribute_macro("main", "Enables an async main function."),
            attribute_macro("test", "Enables an async test function."),
        ]
    );
}

#[test]
fn async_std_text_reads_as_two_attribute_macros() {
    let set = RustDoc::from_json(ASYNC_STD).unwrap();
    assert_eq!(
        set.into_items(),
        vec![
            attribute_macro("main", "Enables an async main function."),
            attribute_macro("test", "Enables an async test function."),
        ]
    );
}

#[test]
fn async_std_text_answers_searches() {
    let seeker = RustDoc::from_json(ASYNC_STD).unwrap().build();
    let found = seeker.search_prefix("ma");
    assert_eq!(found, vec![&attribute_macro("main", "Enables an async main function.")]);
    let found = seeker.search_subsequence("tst");
    assert_eq!(found, vec![&attribute_macro("test", "Enables an async test function.")]);
}

#[test]
fn parent_without_a_name_is_malformed() {
    let text = r#"{"async_std":{"doc":"Async version of the Rust standard library","i":[[23,"main","async_std","Enables an async main function.",null,null],[23,"test","","Enables an async test function.",null,null]],"p":[[8,"Future"],[8,null],[4,null],[4,"SeekFrom"]]}}"#;
    assert_eq!(RustDoc::from_json(text), Err(DecodeError::MalformedInput));
    assert_eq!(parse_packages(text), Err(DecodeError::MalformedInput));
}

#[test]
fn text_that_is_no_json_is_malformed() {
    assert_eq!(RustDoc::from_json(""), Err(DecodeError::MalformedInput));
    assert_eq!(RustDoc::from_json("var searchIndex={};"), Err(DecodeError::MalformedInput));
    assert_eq!(RustDoc::from_json("{\"a\":"), Err(DecodeError::MalformedInput));
    assert_eq!(parse_packages("{} trailing"), Err(DecodeError::MalformedInput));
}

#[test]
fn json_of_another_form_is_malformed() {
    for text in [
        "[]",
        "null",
        "3",
        r#""text""#,
        r#"{"a":[]}"#,
        r#"{"a":{"doc":"d","i":[]}}"#,
        r#"{"a":{"doc":"d","p":[]}}"#,
        r#"{"a":{"i":[],"p":[]}}"#,
        r#"{"a":{"doc":1,"i":[],"p":[]}}"#,
        r#"{"a":{"doc":"d","i":{},"p":[]}}"#,
        r#"{"a":{"doc":"d","i":[],"p":"none"}}"#,
        r#"{"a":{"doc":"d","i":[[5,"f","p","d",null]],"p":[]}}"#,
        r#"{"a":{"doc":"d","i":[[5,"f","p","d",null,null,null]],"p":[]}}"#,
        r#"{"a":{"doc":"d","i":[["5","f","p","d",null,null]],"p":[]}}"#,
        r#"{"a":{"doc":"d","i":[[-5,"f","p","d",null,null]],"p":[]}}"#,
        r#"{"a":{"doc":"d","i":[[5.5,"f","p","d",null,null]],"p":[]}}"#,
        r#"{"a":{"doc":"d","i":[[4294967296,"f","p","d",null,null]],"p":[]}}"#,
        r#"{"a":{"doc":"d","i":[[5,null,"p","d",null,null]],"p":[]}}"#,
        r#"{"a":{"doc":"d","i":[[5,"f",7,"d",null,null]],"p":[]}}"#,
        r#"{"a":{"doc":"d","i":[[5,"f","p",[],null,null]],"p":[]}}"#,
        r#"{"a":{"doc":"d","i":[[5,"f","p","d","0",null]],"p":[]}}"#,
        r#"{"a":{"doc":"d","i":[[5,"f","p","d",-1,null]],"p":[]}}"#,
        r#"{"a":{"doc":"d","i":[{"ty":5}],"p":[]}}"#,
        r#"{"a":{"doc":"d","i":[],"p":[[8]]}}"#,
        r#"{"a":{"doc":"d","i":[],"p":[[8,"T",1]]}}"#,
        r#"{"a":{"doc":"d","i":[],"p":[["8","T"]]}}"#,
        r#"{"good":{"doc":"d","i":[],"p":[]},"bad":7}"#,
    ] {
        assert_eq!(RustDoc::from_json(text), Err(DecodeError::MalformedInput), "{}", text);
    }
}

#[test]
fn well_formed_text_with_a_bad_parent_index_names_the_package() {
    let text = r#"{"fine":{"doc":"","i":[[5,"f","fine","",null,null]],"p":[]},
                   "off":{"doc":"","i":[[11,"m","off","",0,null],[11,"n","","",1,null]],"p":[[3,"S"]]}}"#;
    assert_eq!(
        RustDoc::from_json(text),
        Err(DecodeError::ParentIndexOutOfRange { package: "off".to_string(), item: 1, parent_idx: 1 })
    );
    assert_eq!(parse_packages(text).unwrap().len(), 2);
}

#[test]
fn packages_read_in_the_order_of_their_names() {
    let text = r#"{"zeta":{"doc":"z","i":[],"p":[]},"alpha":{"doc":"a","i":[[5,"f","alpha","d",null,null]],"p":[[8,"T"]],"more":true}}"#;
    let packages = parse_packages(text).unwrap();
    assert_eq!(packages.len(), 2);
    assert_eq!(packages[0].name, "alpha");
    assert_eq!(packages[0].index.doc, "a");
    assert_eq!(packages[0].index.items.len(), 1);
    assert_eq!(packages[0].index.paths, vec![ParentEntry { ty: 8, name: "T".to_string() }]);
    assert_eq!(packages[1].name, "zeta");
    assert_eq!(packages[1].index.doc, "z");
    assert!(packages[1].index.items.is_empty());
    assert_eq!(parse_packages("{}"), Ok(vec![]));
    assert_eq!(RustDoc::from_json("{}").unwrap().len(), 0);
}

#[test]
fn parents_resolve_and_paths_inherit_in_text() {
    let text = r#"{"futures":{"doc":"","i":[[11,"poll","futures::future","Polls.",1,null],[5,"ready","","Ready.",null,null]],"p":[[3,"Task"],[8,"Future"]]}}"#;
    let items = RustDoc::from_json(text).unwrap().into_items();
    assert_eq!(items.len(), 2);
    assert_eq!(items[0].name, TypeItem { kind: EntityKind::Method, name: "poll".to_string() });
    assert_eq!(items[0].parent, Some(TypeItem { kind: EntityKind::Trait, name: "Future".to_string() }));
    assert_eq!(items[0].path, "futures::future");
    assert_eq!(items[1].name.name, "ready");
    assert_eq!(items[1].parent, None);
    assert_eq!(items[1].path, "futures::future");
    assert_eq!(items[1].desc, "Ready.");
}

#[test]
fn item_reads_from_an_array_of_six() {
    let item = read_item(&value(r#"[5,"spawn","task","Spawns a task.",2,{"i":[],"o":"Handle"}]"#));
    assert_eq!(
        item,
        Some(IndexItem {
            ty: 5,
            name: "spawn".to_string(),
            path: "task".to_string(),
            desc: "Spawns a task.".to_string(),
            parent_idx: Some(2),
            search_type: Some(value(r#"{"i":[],"o":"Handle"}"#)),
        })
    );
    let item = read_item(&value(r#"[4294967295,"","","",null,null]"#)).unwrap();
    assert_eq!(item.ty, u32::MAX);
    assert_eq!(item.parent_idx, None);
    assert_eq!(item.search_type, None);
    let item = read_item(&value(r#"[0,"m","","",0,false]"#)).unwrap();
    assert_eq!(item.parent_idx, Some(0));
    assert_eq!(item.search_type, Some(Value::Bool(false)));
    assert_eq!(read_item(&value(r#"{"0":5}"#)), None);
    assert_eq!(read_item(&value(r#"[5,"spawn","task","Spawns a task.",2]"#)), None);
    assert_eq!(read_item(&value(r#"[5,"spawn","task","Spawns a task.",2.5,null]"#)), None);
}

#[test]
fn parent_reads_from_an_array_of_two() {
    assert_eq!(
        read_parent(&value(r#"[8,"Future"]"#)),
        Some(ParentEntry { ty: 8, name: "Future".to_string() })
    );
    assert_eq!(read_parent(&value(r#"[8,null]"#)), None);
    assert_eq!(read_parent(&value(r#"["Future",8]"#)), None);
    assert_eq!(read_parent(&value(r#"[]"#)), None);
    assert_eq!(read_parent(&value(r#"8"#)), None);
    assert_eq!(read_parent(&value(r#"[4294967296,"Future"]"#)), None);
}

#[test]
fn arrays_read_whole_or_not_at_all() {
    let items = read_items(&value(r#"[[5,"a","p","",null,null],[6,"b","","",null,null]]"#)).unwrap();
    assert_eq!(items.len(), 2);
    assert_eq!(items[0].name, "a");
    assert_eq!(items[1].ty, 6);
    assert_eq!(items[1].name, "b");
    assert_eq!(read_items(&value(r#"[[5,"a","p","",null,null],[6,"b"]]"#)), None);
    assert_eq!(read_items(&value("[]")), Some(vec![]));
    assert_eq!(read_items(&value("{}")), None);
    let parents = read_parents(&value(r#"[[3,"S"],[8,"T"]]"#)).unwrap();
    assert_eq!(
        parents,
        vec![ParentEntry { ty: 3, name: "S".to_string() }, ParentEntry { ty: 8, name: "T".to_string() }]
    );
    assert_eq!(read_parents(&value(r#"[[3,"S"],[8]]"#)), None);
    assert_eq!(read_parents(&value("[]")), Some(vec![]));
    assert_eq!(read_parents(&value("null")), None);
}

#[test]
fn record_reads_from_its_three_members() {
    let index = read_index(&value(r#"{"p":[[8,"T"]],"i":[],"doc":"About.","x":[1,2]}"#)).unwrap();
    assert_eq!(index.doc, "About.");
    assert!(index.items.is_empty());
    assert_eq!(index.paths.len(), 1);
    assert_eq!(read_index(&value(r#"["About.",[],[]]"#)).map(|index| index.doc), Some("About.".to_string()));
    assert_eq!(read_index(&value(r#"["About.",[]]"#)), None);
    assert_eq!(read_index(&value(r#"["About.",[],[],[]]"#)), None);
    assert_eq!(read_index(&value(r#"[[],"About.",[]]"#)), None);
    assert_eq!(read_index(&value(r#"{"doc":"About.","i":[]}"#)), None);
    assert_eq!(read_packages(&value(r#"["a"]"#)), None);
    assert_eq!(read_packages(&value(r#"{"a":{"doc":"","i":[],"p":[]}}"#)).unwrap().len(), 1);
}

#[test]
fn parsed_values_become_packages() {
    let packages = packages_of_parsed(serde_json::from_str(ASYNC_STD)).unwrap();
    assert_eq!(packages.len(), 1);
    assert_eq!(packages[0].name, "async_std");
    assert_eq!(packages[0].index.items.len(), 2);
    assert_eq!(packages[0].index.items[1].path, "");
    assert_eq!(packages[0].index.paths.len(), 4);
    assert_eq!(packages_of_parsed(serde_json::from_str("{")), Err(DecodeError::MalformedInput));
    assert_eq!(packages_of_parsed(serde_json::from_str("[1]")), Err(DecodeError::MalformedInput));
}

#[test]
fn item_reads_from_an_object_of_its_parts() {
    let item = read_item(&value(
        r#"{"desc":"Spawns a task.","name":"spawn","parent_idx":2,"path":"task","search_type":[1],"ty":5}"#,
    ));
    assert_eq!(
        item,
        Some(IndexItem {
            ty: 5,
            name: "spawn".to_string(),
            path: "task".to_string(),
            desc: "Spawns a task.".to_string(),
            parent_idx: Some(2),
            search_type: Some(value("[1]")),
        })
    );
    assert_eq!(item, read_item(&value(r#"[5,"spawn","task","Spawns a task.",2,[1]]"#)));
    let bare = read_item(&value(r#"{"ty":5,"name":"spawn","path":"","desc":"","parent":[8,"T"]}"#));
    assert_eq!(
        bare,
        Some(IndexItem {
            ty: 5,
            name: "spawn".to_string(),
            path: String::new(),
            desc: String::new(),
            parent_idx: None,
            search_type: None,
        })
    );
    let nulls = r#"{"ty":5,"name":"spawn","path":"","desc":"","parent_idx":null,"search_type":null}"#;
    assert_eq!(read_item(&value(nulls)), bare);
    assert_eq!(read_item(&value(r#"{"ty":5,"name":"spawn","path":""}"#)), None);
    assert_eq!(read_item(&value(r#"{"name":"spawn","path":"","desc":""}"#)), None);
    assert_eq!(read_item(&value(r#"{"ty":"5","name":"spawn","path":"","desc":""}"#)), None);
    assert_eq!(read_item(&value(r#"{"ty":5,"name":"spawn","path":"","desc":"","parent_idx":"0"}"#)), None);
    assert_eq!(read_item(&value(r#"{}"#)), None);
}

#[test]
fn parent_reads_from_an_object_of_its_parts() {
    assert_eq!(
        read_parent(&value(r#"{"name":"Future","ty":8,"more":null}"#)),
        Some(ParentEntry { ty: 8, name: "Future".to_string() })
    );
    assert_eq!(read_parent(&value(r#"{"name":"Future"}"#)), None);
    assert_eq!(read_parent(&value(r#"{"ty":8}"#)), None);
    assert_eq!(read_parent(&value(r#"{"ty":8,"name":null}"#)), None);
    assert_eq!(read_parent(&value(r#"{"ty":-8,"name":"Future"}"#)), None);
}

#[test]
fn records_in_either_form_read_alike() {
    let arrays = r#"{"futures":["Futures.",[[11,"poll","futures::future","Polls.",0,null],[5,"ready","","Ready.",null,null]],[[8,"Future"]]]}"#;
    let objects = r#"{"futures":{"doc":"Futures.","i":[{"ty":11,"name":"poll","path":"futures::future","desc":"Polls.","parent_idx":0},{"ty":5,"name":"ready","path":"","desc":"Ready."}],"p":[{"ty":8,"name":"Future"}]}}"#;
    let mixed = r#"{"futures":{"doc":"Futures.","i":[[11,"poll","futures::future","Polls.",0,null],{"ty":5,"name":"ready","path":"","desc":"Ready."}],"p":[[8,"Future"]]}}"#;
    let expected = parse_packages(mixed).unwrap();
    assert_eq!(expected.len(), 1);
    assert_eq!(expected[0].index.doc, "Futures.");
    assert_eq!(expected[0].index.items.len(), 2);
    assert_eq!(expected[0].index.items[0].parent_idx, Some(0));
    assert_eq!(expected[0].index.items[1].name, "ready");
    assert_eq!(expected[0].index.paths, vec![ParentEntry { ty: 8, name: "Future".to_string() }]);
    assert_eq!(parse_packages(arrays), Ok(expected.clone()));
    assert_eq!(parse_packages(objects), Ok(expected));
    let items = RustDoc::from_json(objects).unwrap().into_items();
    assert_eq!(items.len(), 2);
    assert_eq!(items[0].parent, Some(TypeItem { kind: EntityKind::Trait, name: "Future".to_string() }));
    assert_eq!(items[1].path, "futures::future");
    assert_eq!(RustDoc::from_json(arrays).unwrap().into_items(), items);
}
