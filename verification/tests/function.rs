use app_meta::{
    FnArg, FnArgYaml, FnEvent, FnEventYaml, FnMeta, FnMetaYaml, KeyPattern, KvMeta, KvOps,
    MetaError,
};

type Kvs = Option<Vec<(String, Vec<String>)>>;

fn kv(template: &str, ops: &[&str]) -> (String, Vec<String>) {
    (template.to_owned(), ops.iter().map(|s| s.to_string()).collect())
}

fn decl(event: Vec<FnEventYaml>, args: Vec<FnArgYaml>, kvs: Kvs) -> FnMetaYaml {
    FnMetaYaml { event, args, kvs }
}

fn function_of(event: Vec<FnEventYaml>, args: Vec<FnArgYaml>, kvs: Kvs) -> FnMeta {
    match FnMeta::from_yaml(&decl(event, args, kvs)) {
        Ok(f) => f,
        Err(e) => panic!("declaration refused: {:?}", e),
    }
}

fn pattern(template: &str) -> KeyPattern {
    KeyPattern::new(template.to_owned())
}

#[test]
fn match_key_skips_a_match_that_denies() {
    let f = function_of(
        vec![],
        vec![],
        Some(vec![kv("a_{}", &["get"]), kv("a_{}", &["set"])]),
    );
    assert_eq!(f.match_key(b"a_1", KvOps::KvSet), Some(pattern("a_{}")));
    assert_eq!(f.match_key(b"a_1", KvOps::KvGet), Some(pattern("a_{}")));
    assert_eq!(f.match_key(b"a_1", KvOps::KvDelete), None);
}

#[test]
fn match_key_returns_the_pattern_that_allows() {
    let f = function_of(
        vec![],
        vec![],
        Some(vec![kv("{}_1", &["get"]), kv("a_{}", &["set"]), kv("{}_{}", &["set", "delete"])]),
    );
    assert_eq!(f.match_key(b"a_1", KvOps::KvGet), Some(pattern("{}_1")));
    assert_eq!(f.match_key(b"a_1", KvOps::KvSet), Some(pattern("a_{}")));
    assert_eq!(f.match_key(b"a_1", KvOps::KvDelete), Some(pattern("{}_{}")));
    assert_eq!(f.match_key(b"b_2", KvOps::KvSet), Some(pattern("{}_{}")));
    assert_eq!(f.match_key(b"b_2", KvOps::KvGet), None);
}

#[test]
fn broad_denial_does_not_shadow_narrow_grant() {
    let f = function_of(
        vec![],
        vec![],
        Some(vec![kv("{}", &[]), kv("k1", &["delete"])]),
    );
    assert_eq!(f.match_key(b"k1", KvOps::KvDelete), Some(pattern("k1")));
    assert_eq!(f.match_key(b"k2", KvOps::KvDelete), None);
}

#[test]
fn match_key_on_bytes_that_are_not_text() {
    let f = function_of(
        vec![],
        vec![],
        Some(vec![kv("{}", &["get", "set", "delete"]), kv("a_{}", &["get", "set", "delete"])]),
    );
    assert_eq!(f.match_key(&[0xff], KvOps::KvGet), None);
    assert_eq!(f.match_key(&[b'a', b'_', 0xc3], KvOps::KvSet), None);
    assert_eq!(f.match_key(&[0xc0, 0x80], KvOps::KvDelete), None);
    assert_eq!(f.match_key(&[0xed, 0xa0, 0x80], KvOps::KvGet), None);
    assert_eq!(f.match_key(&[b'a', b'_', b'1'], KvOps::KvSet), Some(pattern("a_{}")));
    assert_eq!(f.match_key(&[b'a', b'1'], KvOps::KvSet), Some(pattern("{}")));
}

#[test]
fn match_key_decodes_text_outside_ascii() {
    let f = function_of(vec![], vec![], Some(vec![kv("cl\u{e9}_{}", &["get"])]));
    assert_eq!(
        f.match_key("cl\u{e9}_7".as_bytes(), KvOps::KvGet),
        Some(pattern("cl\u{e9}_{}"))
    );
    assert_eq!(f.match_key("cle_7".as_bytes(), KvOps::KvGet), None);
}

#[test]
fn match_key_without_permissions() {
    let none = function_of(vec![FnEventYaml::HttpApp { http_app: () }], vec![], None);
    assert_eq!(none.match_key(b"a_1", KvOps::KvGet), None);
    let empty = function_of(vec![], vec![], Some(vec![]));
    assert_eq!(empty.match_key(b"a_1", KvOps::KvGet), None);
    assert_eq!(empty.match_key(b"", KvOps::KvGet), None);
}

#[test]
fn match_key_on_the_empty_key() {
    let f = function_of(vec![], vec![], Some(vec![kv("{}", &["get"]), kv("", &["get"])]));
    assert_eq!(f.match_key(b"", KvOps::KvGet), Some(pattern("")));
}

#[test]
fn unknown_operation_is_refused() {
    let r = FnMeta::from_yaml(&decl(vec![], vec![], Some(vec![kv("a_{}", &["get", "put"])])));
    assert!(matches!(r, Err(MetaError::InvalidOperation)));
    let kvs = Some(vec![kv("a", &["set"]), kv("b", &["Set"])]);
    let r = FnMeta::from_yaml(&decl(vec![], vec![], kvs));
    assert!(matches!(r, Err(MetaError::InvalidOperation)));
    let r = FnMeta::from_yaml(&decl(vec![], vec![], Some(vec![kv("a", &[""])])));
    assert!(matches!(r, Err(MetaError::InvalidOperation)));
}

#[test]
fn event_slot_out_of_range_is_refused() {
    let r = FnMeta::from_yaml(&decl(
        vec![FnEventYaml::KvSet { kv_set: 1 }],
        vec![],
        Some(vec![kv("a_{}", &["set"])]),
    ));
    assert!(matches!(r, Err(MetaError::SlotOutOfRange)));
    let r = FnMeta::from_yaml(&decl(vec![FnEventYaml::KvSet { kv_set: 0 }], vec![], None));
    assert!(matches!(r, Err(MetaError::SlotOutOfRange)));
    let r = FnMeta::from_yaml(&decl(vec![FnEventYaml::KvSet { kv_set: 0 }], vec![], Some(vec![])));
    assert!(matches!(r, Err(MetaError::SlotOutOfRange)));
    let r = FnMeta::from_yaml(&decl(
        vec![FnEventYaml::KvSet { kv_set: usize::MAX }],
        vec![],
        Some(vec![kv("a_{}", &["set"])]),
    ));
    assert!(matches!(r, Err(MetaError::SlotOutOfRange)));
}

#[test]
fn argument_slot_out_of_range_is_refused() {
    let r = FnMeta::from_yaml(&decl(
        vec![FnEventYaml::HttpApp { http_app: () }],
        vec![FnArgYaml::HttpText { http_text: () }, FnArgYaml::KvKey { kv_key: 2 }],
        Some(vec![kv("a_{}", &["set"]), kv("b_{}", &["get"])]),
    ));
    assert!(matches!(r, Err(MetaError::SlotOutOfRange)));
}

#[test]
fn unknown_operation_is_reported_before_a_bad_slot() {
    let r = FnMeta::from_yaml(&decl(
        vec![FnEventYaml::KvSet { kv_set: 9 }],
        vec![],
        Some(vec![kv("a_{}", &["write"])]),
    ));
    assert!(matches!(r, Err(MetaError::InvalidOperation)));
}

#[test]
fn declaration_is_kept_in_order() {
    let f = function_of(
        vec![
            FnEventYaml::KvSet { kv_set: 1 },
            FnEventYaml::HttpApp { http_app: () },
            FnEventYaml::KvSet { kv_set: 0 },
        ],
        vec![FnArgYaml::KvKey { kv_key: 1 }, FnArgYaml::HttpText { http_text: () }],
        Some(vec![kv("a_{}", &["set"]), kv("b_{}", &["get", "delete"])]),
    );
    assert_eq!(f.events(), &vec![FnEvent::KvSet(1), FnEvent::HttpApp, FnEvent::KvSet(0)]);
    assert_eq!(f.args(), &vec![FnArg::KvKey(1), FnArg::HttpText]);
    let first = f.try_get_kv_meta_by_index(0).unwrap();
    assert_eq!(first.pattern, pattern("a_{}"));
    assert!(first.allows(KvOps::KvSet));
    assert!(!first.allows(KvOps::KvGet));
    assert!(!first.allows(KvOps::KvDelete));
    let second = f.try_get_kv_meta_by_index(1).unwrap();
    assert_eq!(second.pattern, pattern("b_{}"));
    assert!(!second.allows(KvOps::KvSet));
    assert!(second.allows(KvOps::KvGet));
    assert!(second.allows(KvOps::KvDelete));
    assert!(f.try_get_kv_meta_by_index(2).is_none());
    assert!(f.try_get_kv_meta_by_index(usize::MAX).is_none());
    assert_eq!(f.get_kv_meta_by_index_unwrap(1).pattern, pattern("b_{}"));
    assert_eq!(f.get_kv_meta_by_index_unwrap(0).pattern(), &pattern("a_{}"));
}

#[test]
fn slot_lookup_without_permissions() {
    let f = function_of(vec![], vec![], None);
    assert!(f.try_get_kv_meta_by_index(0).is_none());
    assert!(f.kvs().is_none());
}

#[test]
fn permissions_are_listed_by_slot() {
    let f = function_of(vec![], vec![], Some(vec![kv("b_{}", &["get"]), kv("a_{}", &["set"])]));
    let kvs = f.kvs().unwrap();
    assert_eq!(kvs.len(), 2);
    assert_eq!(kvs[0].pattern, pattern("b_{}"));
    assert_eq!(kvs[1].pattern, pattern("a_{}"));
    let empty = function_of(vec![], vec![], Some(vec![]));
    assert_eq!(empty.kvs().map(|k| k.len()), Some(0));
}

#[test]
fn repeated_operation_names_are_accepted() {
    let f = function_of(vec![], vec![], Some(vec![kv("a", &["get", "get", "set", "get"])]));
    let m = f.try_get_kv_meta_by_index(0).unwrap();
    assert!(m.allows(KvOps::KvGet));
    assert!(m.allows(KvOps::KvSet));
    assert!(!m.allows(KvOps::KvDelete));
}

#[test]
fn trigger_is_found_by_template_text_only() {
    let f = function_of(
        vec![FnEventYaml::KvSet { kv_set: 0 }],
        vec![],
        Some(vec![kv("a_{}", &["set"])]),
    );
    let found = f.find_will_trigger_kv_event(&pattern("a_{}"), KvOps::KvSet);
    assert_eq!(found.map(|m| m.pattern.clone()), Some(pattern("a_{}")));
    assert!(f.find_will_trigger_kv_event(&pattern("a{}"), KvOps::KvSet).is_none());
    assert!(f.find_will_trigger_kv_event(&pattern("a_1"), KvOps::KvSet).is_none());
    assert!(f.find_will_trigger_kv_event(&pattern("{}"), KvOps::KvSet).is_none());
}

#[test]
fn trigger_is_found_for_set_only() {
    let f = function_of(
        vec![FnEventYaml::KvSet { kv_set: 0 }],
        vec![],
        Some(vec![kv("a_{}", &["set", "get", "delete"])]),
    );
    assert!(f.find_will_trigger_kv_event(&pattern("a_{}"), KvOps::KvSet).is_some());
    assert!(f.find_will_trigger_kv_event(&pattern("a_{}"), KvOps::KvGet).is_none());
    assert!(f.find_will_trigger_kv_event(&pattern("a_{}"), KvOps::KvDelete).is_none());
}

#[test]
fn trigger_needs_an_event_on_the_permission() {
    let f = function_of(
        vec![FnEventYaml::HttpApp { http_app: () }, FnEventYaml::KvSet { kv_set: 1 }],
        vec![],
        Some(vec![kv("a_{}", &["set"]), kv("b_{}", &["get"])]),
    );
    assert!(f.find_will_trigger_kv_event(&pattern("a_{}"), KvOps::KvSet).is_none());
    let found = f.find_will_trigger_kv_event(&pattern("b_{}"), KvOps::KvSet).unwrap();
    assert_eq!(found.pattern, pattern("b_{}"));
    assert!(found.allows(KvOps::KvGet));
    assert!(!found.allows(KvOps::KvSet));
}

#[test]
fn trigger_of_the_first_event_wins() {
    let f = function_of(
        vec![FnEventYaml::KvSet { kv_set: 2 }, FnEventYaml::KvSet { kv_set: 0 }],
        vec![],
        Some(vec![kv("a_{}", &["get"]), kv("b", &[]), kv("a_{}", &["delete"])]),
    );
    let found = f.find_will_trigger_kv_event(&pattern("a_{}"), KvOps::KvSet).unwrap();
    assert!(found.allows(KvOps::KvDelete));
    assert!(!found.allows(KvOps::KvGet));
}

#[test]
fn http_trigger_is_seen_among_events() {
    let f = function_of(
        vec![FnEventYaml::KvSet { kv_set: 0 }, FnEventYaml::HttpApp { http_app: () }],
        vec![],
        Some(vec![kv("a", &["set"])]),
    );
    assert!(f.is_http_triggered());
    let g = function_of(
        vec![FnEventYaml::KvSet { kv_set: 0 }],
        vec![],
        Some(vec![kv("a", &["set"])]),
    );
    assert!(!g.is_http_triggered());
    let h = function_of(vec![], vec![], None);
    assert!(!h.is_http_triggered());
}

#[test]
fn declared_events_and_arguments_convert() {
    assert_eq!(FnEvent::from(FnEventYaml::HttpApp { http_app: () }), FnEvent::HttpApp);
    assert_eq!(FnEvent::from(FnEventYaml::KvSet { kv_set: 7 }), FnEvent::KvSet(7));
    assert_eq!(FnArg::from(FnArgYaml::KvKey { kv_key: 3 }), FnArg::KvKey(3));
    assert_eq!(FnArg::from(FnArgYaml::HttpText { http_text: () }), FnArg::HttpText);
}

#[test]
fn permission_from_operation_names() {
    let ops: Vec<String> = vec!["delete".to_owned(), "get".to_owned()];
    let m = KvMeta::new(pattern("p_{}"), &ops).unwrap();
    assert!(m.allows(KvOps::KvGet));
    assert!(m.allows(KvOps::KvDelete));
    assert!(!m.allows(KvOps::KvSet));
    assert_eq!(m.pattern(), &pattern("p_{}"));
    let none: Vec<String> = vec![];
    let m = KvMeta::new(pattern("p"), &none).unwrap();
    assert!(!m.allows(KvOps::KvGet) && !m.allows(KvOps::KvSet) && !m.allows(KvOps::KvDelete));
    let bad: Vec<String> = vec!["get".to_owned(), "sets".to_owned()];
    assert!(matches!(KvMeta::new(pattern("p"), &bad), Err(MetaError::InvalidOperation)));
}
