use app_meta::{AppMeta, AppMetaYaml, FnEvent, FnEventYaml, FnMetaYaml, KvOps, MetaError};

fn fn_decl(event: Vec<FnEventYaml>, kvs: Option<Vec<(&str, Vec<&str>)>>) -> FnMetaYaml {
    FnMetaYaml {
        event,
        args: vec![],
        kvs: kvs.map(|list| {
            list.into_iter()
                .map(|(t, ops)| (t.to_owned(), ops.into_iter().map(|o| o.to_owned()).collect()))
                .collect()
        }),
    }
}

fn app_decl(fns: Vec<(&str, FnMetaYaml)>) -> AppMetaYaml {
    AppMetaYaml { fns: fns.into_iter().map(|(n, f)| (n.to_owned(), f)).collect() }
}

fn app_of(fns: Vec<(&str, FnMetaYaml)>) -> AppMeta {
    match AppMeta::from_yaml(&app_decl(fns)) {
        Ok(app) => app,
        Err(e) => panic!("declaration refused: {:?}", e),
    }
}

#[test]
fn function_is_found_by_name() {
    let app = app_of(vec![
        ("first", fn_decl(vec![FnEventYaml::HttpApp { http_app: () }], None)),
        (
            "second",
            fn_decl(vec![FnEventYaml::KvSet { kv_set: 0 }], Some(vec![("k_{}", vec!["set"])])),
        ),
    ]);
    let first = app.get_fn_meta("first").unwrap();
    assert_eq!(first.events(), &vec![FnEvent::HttpApp]);
    let second = app.get_fn_meta("second").unwrap();
    assert_eq!(second.events(), &vec![FnEvent::KvSet(0)]);
    assert!(second.match_key(b"k_1", KvOps::KvSet).is_some());
    assert!(app.get_fn_meta("third").is_none());
    assert!(app.get_fn_meta("").is_none());
    assert!(app.get_fn_meta("First").is_none());
    assert!(app.get_fn_meta("firs").is_none());
}

#[test]
fn functions_keep_declared_order() {
    let app = app_of(vec![
        ("b", fn_decl(vec![], None)),
        ("a", fn_decl(vec![], None)),
        ("c", fn_decl(vec![], None)),
    ]);
    let names: Vec<&str> = app.functions().iter().map(|e| e.0.as_str()).collect();
    assert_eq!(names, vec!["b", "a", "c"]);
}

#[test]
fn http_trigger_function_is_the_first_declared() {
    let app = app_of(vec![
        ("kv", fn_decl(vec![FnEventYaml::KvSet { kv_set: 0 }], Some(vec![("k", vec!["set"])]))),
        (
            "web",
            fn_decl(
                vec![FnEventYaml::KvSet { kv_set: 0 }, FnEventYaml::HttpApp { http_app: () }],
                Some(vec![("k", vec!["set"])]),
            ),
        ),
        ("web2", fn_decl(vec![FnEventYaml::HttpApp { http_app: () }], None)),
    ]);
    assert_eq!(app.http_trigger_fn(), Some("web"));
}

#[test]
fn no_http_trigger_function() {
    let app = app_of(vec![
        ("kv", fn_decl(vec![FnEventYaml::KvSet { kv_set: 0 }], Some(vec![("k", vec!["set"])]))),
        ("idle", fn_decl(vec![], None)),
    ]);
    assert_eq!(app.http_trigger_fn(), None);
    let empty = app_of(vec![]);
    assert_eq!(empty.http_trigger_fn(), None);
    assert!(empty.get_fn_meta("x").is_none());
}

#[test]
fn repeated_function_name_is_refused() {
    let r = AppMeta::from_yaml(&app_decl(vec![
        ("f", fn_decl(vec![], None)),
        ("g", fn_decl(vec![], None)),
        ("f", fn_decl(vec![FnEventYaml::HttpApp { http_app: () }], None)),
    ]));
    assert!(matches!(r, Err(MetaError::DuplicateFunction)));
}

#[test]
fn first_defective_function_decides_the_error() {
    let bad_op = || fn_decl(vec![], Some(vec![("k", vec!["drop"])]));
    let bad_slot = || fn_decl(vec![FnEventYaml::KvSet { kv_set: 4 }], None);
    let fine = || fn_decl(vec![], None);
    let r = AppMeta::from_yaml(&app_decl(vec![("a", fine()), ("b", bad_slot()), ("c", bad_op())]));
    assert!(matches!(r, Err(MetaError::SlotOutOfRange)));
    let r = AppMeta::from_yaml(&app_decl(vec![("a", bad_op()), ("b", bad_slot())]));
    assert!(matches!(r, Err(MetaError::InvalidOperation)));
    let r = AppMeta::from_yaml(&app_decl(vec![("a", fine()), ("a", bad_op())]));
    assert!(matches!(r, Err(MetaError::InvalidOperation)));
    let r = AppMeta::from_yaml(&app_decl(vec![("a", fine()), ("a", fine()), ("b", bad_op())]));
    assert!(matches!(r, Err(MetaError::DuplicateFunction)));
}
