use crate::declaration::{FnArgYaml, FnEventYaml, FnMetaYaml, FnMetaYamlView};
use crate::error::MetaError;
use crate::pattern::{template_matches, KeyPattern};
use crate::text::{chars_of, decode, str_eq};
use vstd::prelude::*;
use vstd::std_specs::convert::FromSpecImpl;
use vstd::utf8::{decode_utf8, valid_utf8};

verus! {

/// An operation on a key of the key-value store.
#[derive(Clone, Copy, Debug, PartialEq, Eq, Structural)]
pub enum KvOps {
    KvGet,
    KvSet,
    KvDelete,
}

/// What makes a function run: an HTTP invocation, or a mutation of a key that
/// matches the key permission in the given slot of the function.
#[derive(Clone, Copy, Debug, PartialEq, Eq, Structural)]
pub enum FnEvent {
    HttpApp,
    KvSet(usize),
}

/// The event that a declared event stands for.
pub open spec fn event_of(yaml: FnEventYaml) -> FnEvent {
    match yaml {
        FnEventYaml::HttpApp { http_app: _ } => FnEvent::HttpApp,
        FnEventYaml::KvSet { kv_set } => FnEvent::KvSet(kv_set),
    }
}

impl From<FnEventYaml> for FnEvent {
    fn from(yaml: FnEventYaml) -> (r: Self) {
        match yaml {
            FnEventYaml::HttpApp { http_app: _ } => Self::HttpApp,
            FnEventYaml::KvSet { kv_set } => Self::KvSet(kv_set),
        }
    }
}

impl FromSpecImpl<FnEventYaml> for FnEvent {
    open spec fn obeys_from_spec() -> bool {
        true
    }

    open spec fn from_spec(yaml: FnEventYaml) -> Self {
        event_of(yaml)
    }
}

/// What a function is handed when it runs: the key in the given slot, or the
/// body of the HTTP request.
#[derive(Clone, Copy, Debug, PartialEq, Eq, Structural)]
pub enum FnArg {
    KvKey(usize),
    HttpText,
}

/// The argument binding that a declared argument stands for.
pub open spec fn arg_of(yaml: FnArgYaml) -> FnArg {
    match yaml {
        FnArgYaml::KvKey { kv_key } => FnArg::KvKey(kv_key),
        FnArgYaml::HttpText { http_text: _ } => FnArg::HttpText,
    }
}

impl From<FnArgYaml> for FnArg {
    fn from(yaml: FnArgYaml) -> (r: Self) {
        match yaml {
            FnArgYaml::KvKey { kv_key } => Self::KvKey(kv_key),
            FnArgYaml::HttpText { http_text: _ } => Self::HttpText,
        }
    }
}

impl FromSpecImpl<FnArgYaml> for FnArg {
    open spec fn obeys_from_spec() -> bool {
        true
    }

    open spec fn from_spec(yaml: FnArgYaml) -> Self {
        arg_of(yaml)
    }
}

/// A key permission as plain values: the template and the operations allowed
/// on the keys that match it.
pub struct KvMetaView {
    pub set: bool,
    pub get: bool,
    pub delete: bool,
    pub pattern: Seq<char>,
}

impl KvMetaView {
    /// Whether the permission allows `ope`.
    pub open spec fn allows(self, ope: KvOps) -> bool {
        match ope {
            KvOps::KvGet => self.get,
            KvOps::KvSet => self.set,
            KvOps::KvDelete => self.delete,
        }
    }

    /// Whether the permission covers `key` and allows `ope` on it.
    pub open spec fn grants(self, key: Seq<char>, ope: KvOps) -> bool {
        template_matches(self.pattern, key) && self.allows(ope)
    }
}

/// The operation names a declaration may use.
pub open spec fn op_known(op: Seq<char>) -> bool {
    op == "set"@ || op == "get"@ || op == "delete"@
}

/// The three operation names are three different texts.
pub proof fn lemma_op_names_differ()
    ensures
        "set"@ != "get"@,
        "set"@ != "delete"@,
        "get"@ != "delete"@,
{
    reveal_strlit("set");
    reveal_strlit("get");
    reveal_strlit("delete");
    assert("set"@[0] != "get"@[0]);
    assert("set"@.len() != "delete"@.len());
    assert("get"@.len() != "delete"@.len());
}

/// The permission that a template and a list of operation names declare.
pub open spec fn kv_meta_of(template: Seq<char>, ops: Seq<Seq<char>>) -> KvMetaView {
    KvMetaView {
        set: ops.contains("set"@),
        get: ops.contains("get"@),
        delete: ops.contains("delete"@),
        pattern: template,
    }
}

/// A key permission: a pattern and the operations allowed on matching keys.
#[derive(Debug)]
pub struct KvMeta {
    set: bool,
    get: bool,
    delete: bool,
    pub pattern: KeyPattern,
}

impl View for KvMeta {
    type V = KvMetaView;

    closed spec fn view(&self) -> KvMetaView {
        KvMetaView { set: self.set, get: self.get, delete: self.delete, pattern: self.pattern@ }
    }
}

impl KvMeta {
    /// The permission that `pattern` and the operation names `ops` declare, or
    /// `InvalidOperation` when a name is none of `set`, `get` and `delete`.
    pub fn new(pattern: KeyPattern, ops: &Vec<String>) -> (r: Result<KvMeta, MetaError>)
        ensures
            match r {
                Ok(kv) => {
                    &&& forall|j: int| 0 <= j < ops.len() ==> op_known(#[trigger] ops@[j]@)
                    &&& kv@ == kv_meta_of(pattern@, ops.deep_view())
                },
                Err(e) => {
                    &&& e == MetaError::InvalidOperation
                    &&& exists|j: int| 0 <= j < ops.len() && !op_known(#[trigger] ops@[j]@)
                },
            },
    {
        let mut set = false;
        let mut get = false;
        let mut delete = false;
        let mut j: usize = 0;
        let ghost names = ops.deep_view();
        proof {
            lemma_op_names_differ();
        }
        while j < ops.len()
            invariant
                j <= ops.len(),
                names == ops.deep_view(),
                forall|t: int| 0 <= t < j ==> op_known(#[trigger] ops@[t]@),
                set == names.take(j as int).contains("set"@),
                get == names.take(j as int).contains("get"@),
                delete == names.take(j as int).contains("delete"@),
                "set"@ != "get"@,
                "set"@ != "delete"@,
                "get"@ != "delete"@,
            decreases ops.len() - j,
        {
            let op = ops[j].as_str();
            let ghost before = names.take(j as int);
            let ghost after = names.take(j + 1);
            assert(after == before.push(op@));
            assert(forall|x: Seq<char>| after.contains(x) <==> before.contains(x) || x == op@) by {
                assert forall|x: Seq<char>| after.contains(x) implies before.contains(x) || x
                    == op@ by {
                    let t = choose|t: int| 0 <= t < after.len() && after[t] == x;
                    if t < j {
                        assert(before[t] == x);
                    }
                }
                assert forall|x: Seq<char>| before.contains(x) || x == op@ implies after.contains(
                    x,
                ) by {
                    if before.contains(x) {
                        let t = choose|t: int| 0 <= t < before.len() && before[t] == x;
                        assert(after[t] == x);
                    } else {
                        assert(after[j as int] == x);
                    }
                }
            }
            if str_eq(op, "set") {
                set = true;
            } else if str_eq(op, "get") {
                get = true;
            } else if str_eq(op, "delete") {
                delete = true;
            } else {
                return Err(MetaError::InvalidOperation);
            }
            j += 1;
        }
        assert(names.take(j as int) == names);
        Ok(KvMeta { set, get, delete, pattern })
    }

    /// The pattern of the keys that the permission covers.
    pub fn pattern(&self) -> (r: &KeyPattern)
        ensures
            r@ == self@.pattern,
    {
        &self.pattern
    }

    /// Whether the permission allows `ope`.
    pub fn allows(&self, ope: KvOps) -> (r: bool)
        ensures
            r == self@.allows(ope),
    {
        match ope {
            KvOps::KvGet => self.get,
            KvOps::KvSet => self.set,
            KvOps::KvDelete => self.delete,
        }
    }
}

/// A function as plain values: its trigger events, its argument bindings and
/// its key permissions, each in declared order.
pub struct FnMetaView {
    pub event: Seq<FnEvent>,
    pub args: Seq<FnArg>,
    pub kvs: Option<Seq<KvMetaView>>,
}

impl FnMetaView {
    /// The key permissions, slot by slot; none where none are declared.
    pub open spec fn permissions(self) -> Seq<KvMetaView> {
        match self.kvs {
            Some(kvs) => kvs,
            None => Seq::empty(),
        }
    }

    /// Every slot that an event or an argument refers to holds a permission.
    pub open spec fn slots_in_range(self) -> bool {
        &&& forall|i: int|
            0 <= i < self.event.len() ==> (#[trigger] self.event[i] matches FnEvent::KvSet(slot)
                ==> slot < self.permissions().len())
        &&& forall|i: int|
            0 <= i < self.args.len() ==> (#[trigger] self.args[i] matches FnArg::KvKey(slot)
                ==> slot < self.permissions().len())
    }

    /// Permission `i` is the first, in declared order, that covers `key` and
    /// allows `ope`. Permissions before it may cover the key without allowing
    /// the operation.
    pub open spec fn first_grant(self, key: Seq<char>, ope: KvOps, i: int) -> bool {
        &&& 0 <= i < self.permissions().len()
        &&& self.permissions()[i].grants(key, ope)
        &&& forall|j: int| 0 <= j < i ==> !(#[trigger] self.permissions()[j]).grants(key, ope)
    }

    /// No permission covers `key` and allows `ope`.
    pub open spec fn no_grant(self, key: Seq<char>, ope: KvOps) -> bool {
        forall|j: int|
            0 <= j < self.permissions().len() ==> !(#[trigger] self.permissions()[j]).grants(
                key,
                ope,
            )
    }

    /// Event `i` is a key mutation trigger whose permission has exactly the
    /// template `template`.
    pub open spec fn triggers_on(self, i: int, template: Seq<char>) -> bool {
        &&& 0 <= i < self.event.len()
        &&& match self.event[i] {
            FnEvent::KvSet(slot) => slot < self.permissions().len()
                && self.permissions()[slot as int].pattern == template,
            FnEvent::HttpApp => false,
        }
    }

    /// The permission that event `i`, a key mutation trigger, refers to.
    pub open spec fn trigger_permission(self, i: int) -> KvMetaView {
        match self.event[i] {
            FnEvent::KvSet(slot) => self.permissions()[slot as int],
            FnEvent::HttpApp => arbitrary(),
        }
    }

    /// Event `i` is the first that triggers on `template`.
    pub open spec fn first_trigger(self, i: int, template: Seq<char>) -> bool {
        &&& self.triggers_on(i, template)
        &&& forall|j: int| 0 <= j < i ==> !self.triggers_on(j, template)
    }

    /// Some event is an HTTP invocation.
    pub open spec fn http_triggered(self) -> bool {
        exists|i: int| 0 <= i < self.event.len() && self.event[i] == FnEvent::HttpApp
    }
}

/// The permissions that a list of templates with operation names declares.
pub open spec fn kvs_of(kvs: Seq<(Seq<char>, Seq<Seq<char>>)>) -> Seq<KvMetaView> {
    Seq::new(kvs.len(), |i: int| kv_meta_of(kvs[i].0, kvs[i].1))
}

/// The function that a declaration describes.
pub open spec fn fn_meta_of(y: FnMetaYamlView) -> FnMetaView {
    FnMetaView {
        event: Seq::new(y.event.len(), |i: int| event_of(y.event[i])),
        args: Seq::new(y.args.len(), |i: int| arg_of(y.args[i])),
        kvs: match y.kvs {
            Some(kvs) => Some(kvs_of(kvs)),
            None => None,
        },
    }
}

/// Every operation name in the declaration is `set`, `get` or `delete`.
pub open spec fn operations_known(y: FnMetaYamlView) -> bool {
    y.kvs matches Some(kvs) ==> forall|i: int, j: int|
        0 <= i < kvs.len() && 0 <= j < kvs[i].1.len() ==> op_known(#[trigger] kvs[i].1[j])
}

/// What is wrong with a function declaration, if anything. An unknown
/// operation name is reported before a slot that is out of range.
pub open spec fn fn_defect(y: FnMetaYamlView) -> Option<MetaError> {
    if !operations_known(y) {
        Some(MetaError::InvalidOperation)
    } else if !fn_meta_of(y).slots_in_range() {
        Some(MetaError::SlotOutOfRange)
    } else {
        None
    }
}

/// A function of an application: what triggers it, what it is handed, and the
/// keys it may touch. Every slot its events and arguments refer to is declared.
pub struct FnMeta {
    event: Vec<FnEvent>,
    args: Vec<FnArg>,
    kvs: Option<Vec<KvMeta>>,
}

impl View for FnMeta {
    type V = FnMetaView;

    closed spec fn view(&self) -> FnMetaView {
        FnMetaView {
            event: self.event@,
            args: self.args@,
            kvs: match self.kvs {
                Some(kvs) => Some(Seq::new(kvs@.len(), |i: int| kvs@[i]@)),
                None => None,
            },
        }
    }
}

impl FnMeta {
    /// Every slot that an event or an argument refers to is declared.
    #[verifier::type_invariant]
    pub open spec fn inv(&self) -> bool {
        self@.slots_in_range()
    }

    /// The key permissions of a declaration, or `InvalidOperation`.
    fn kvs_from_yaml(list: &Vec<(String, Vec<String>)>) -> (r: Result<Vec<KvMeta>, MetaError>)
        ensures
            match r {
                Ok(kvs) => {
                    &&& forall|i: int, j: int|
                        0 <= i < list.len() && 0 <= j < list@[i].1.len() ==> op_known(
                            #[trigger] list@[i].1@[j]@,
                        )
                    &&& kvs.len() == list.len()
                    &&& forall|i: int|
                        0 <= i < list.len() ==> (#[trigger] kvs@[i])@ == kv_meta_of(
                            list@[i].0@,
                            list@[i].1.deep_view(),
                        )
                },
                Err(e) => {
                    &&& e == MetaError::InvalidOperation
                    &&& exists|i: int, j: int|
                        0 <= i < list.len() && 0 <= j < list@[i].1.len() && !op_known(
                            #[trigger] list@[i].1@[j]@,
                        )
                },
            },
    {
        let mut out: Vec<KvMeta> = Vec::new();
        let mut i: usize = 0;
        while i < list.len()
            invariant
                i <= list.len(),
                out.len() == i,
                forall|t: int, j: int|
                    0 <= t < i && 0 <= j < list@[t].1.len() ==> op_known(
                        #[trigger] list@[t].1@[j]@,
                    ),
                forall|t: int|
                    0 <= t < i ==> (#[trigger] out@[t])@ == kv_meta_of(
                        list@[t].0@,
                        list@[t].1.deep_view(),
                    ),
            decreases list.len() - i,
        {
            let pattern = KeyPattern::new(list[i].0.clone());
            match KvMeta::new(pattern, &list[i].1) {
                Ok(kv) => {
                    out.push(kv);
                },
                Err(e) => {
                    return Err(e);
                },
            }
            i += 1;
        }
        Ok(out)
    }

    /// The function that `yaml` declares, or what is wrong with the declaration.
    pub fn from_yaml(yaml: &FnMetaYaml) -> (r: Result<FnMeta, MetaError>)
        ensures
            match r {
                Ok(f) => fn_defect(yaml@) is None && f@ == fn_meta_of(yaml@),
                Err(e) => fn_defect(yaml@) == Some(e),
            },
    {
        let ghost want = fn_meta_of(yaml@);
        let kvs = match &yaml.kvs {
            Some(list) => {
                proof {
                    lemma_declared_kvs(*list);
                }
                match Self::kvs_from_yaml(list) {
                    Ok(kvs) => {
                        assert(Seq::new(kvs@.len(), |i: int| kvs@[i]@) =~= kvs_of(
                            list.deep_view(),
                        ));
                        Some(kvs)
                    },
                    Err(e) => {
                        proof {
                            let (i, j) = choose|i: int, j: int|
                                0 <= i < list.len() && 0 <= j < list@[i].1.len() && !op_known(
                                    #[trigger] list@[i].1@[j]@,
                                );
                            assert(!op_known(list.deep_view()[i].1[j]));
                        }
                        return Err(e);
                    },
                }
            },
            None => None,
        };
        let slots: usize = match &kvs {
            Some(kvs) => kvs.len(),
            None => 0,
        };
        assert(operations_known(yaml@));
        assert(slots == want.permissions().len());
        let mut event: Vec<FnEvent> = Vec::new();
        let mut i: usize = 0;
        while i < yaml.event.len()
            invariant
                i <= yaml.event.len(),
                event.len() == i,
                want == fn_meta_of(yaml@),
                operations_known(yaml@),
                slots == want.permissions().len(),
                forall|t: int| 0 <= t < i ==> #[trigger] event@[t] == event_of(yaml.event@[t]),
                forall|t: int|
                    0 <= t < i ==> (#[trigger] event@[t] matches FnEvent::KvSet(slot) ==> slot
                        < slots),
            decreases yaml.event.len() - i,
        {
            let e = FnEvent::from(yaml.event[i]);
            assert(want.event[i as int] == e);
            match e {
                FnEvent::KvSet(slot) => {
                    if slot >= slots {
                        return Err(MetaError::SlotOutOfRange);
                    }
                },
                FnEvent::HttpApp => {},
            }
            event.push(e);
            i += 1;
        }
        assert(event@ =~= want.event);
        let mut args: Vec<FnArg> = Vec::new();
        let mut i: usize = 0;
        while i < yaml.args.len()
            invariant
                i <= yaml.args.len(),
                args.len() == i,
                want == fn_meta_of(yaml@),
                operations_known(yaml@),
                slots == want.permissions().len(),
                forall|t: int| 0 <= t < i ==> #[trigger] args@[t] == arg_of(yaml.args@[t]),
                forall|t: int|
                    0 <= t < i ==> (#[trigger] args@[t] matches FnArg::KvKey(slot) ==> slot
                        < slots),
            decreases yaml.args.len() - i,
        {
            let a = FnArg::from(yaml.args[i]);
            assert(want.args[i as int] == a);
            match a {
                FnArg::KvKey(slot) => {
                    if slot >= slots {
                        return Err(MetaError::SlotOutOfRange);
                    }
                },
                FnArg::HttpText => {},
            }
            args.push(a);
            i += 1;
        }
        assert(args@ =~= want.args);
        Ok(FnMeta { event, args, kvs })
    }
}

impl FnMeta {
    /// The trigger events, in declared order.
    pub fn events(&self) -> (r: &Vec<FnEvent>)
        ensures
            r@ == self@.event,
    {
        &self.event
    }

    /// The argument bindings, in declared order.
    pub fn args(&self) -> (r: &Vec<FnArg>)
        ensures
            r@ == self@.args,
    {
        &self.args
    }

    /// The key permissions, slot by slot, where any are declared.
    pub fn kvs(&self) -> (r: Option<&Vec<KvMeta>>)
        ensures
            match r {
                Some(kvs) => {
                    &&& self@.kvs is Some
                    &&& kvs.len() == self@.permissions().len()
                    &&& forall|i: int|
                        0 <= i < kvs.len() ==> (#[trigger] kvs@[i])@ == self@.permissions()[i]
                },
                None => self@.kvs is None,
            },
    {
        match &self.kvs {
            Some(kvs) => Some(kvs),
            None => None,
        }
    }

    /// Whether an HTTP invocation is among the trigger events.
    pub fn is_http_triggered(&self) -> (r: bool)
        ensures
            r == self@.http_triggered(),
    {
        let mut i: usize = 0;
        while i < self.event.len()
            invariant
                i <= self.event.len(),
                forall|j: int| 0 <= j < i ==> self@.event[j] != FnEvent::HttpApp,
            decreases self.event.len() - i,
        {
            if self.event[i] == FnEvent::HttpApp {
                return true;
            }
            i += 1;
        }
        false
    }

    /// The pattern of the first permission, in declared order, that covers
    /// `key` and allows `ope` on it. A permission that covers the key without
    /// allowing the operation does not end the search. A key that is not
    /// well-formed UTF-8 is covered by no permission.
    pub fn match_key(&self, key: &[u8], ope: KvOps) -> (r: Option<KeyPattern>)
        ensures
            !valid_utf8(key@) ==> r is None,
            valid_utf8(key@) ==> match r {
                Some(p) => exists|i: int|
                    #[trigger] self@.first_grant(decode_utf8(key@), ope, i) && p@
                        == self@.permissions()[i].pattern,
                None => self@.no_grant(decode_utf8(key@), ope),
            },
    {
        let text = match decode(key) {
            Some(text) => chars_of(text),
            None => {
                return None;
            },
        };
        if let Some(kvs) = &self.kvs {
            let mut i: usize = 0;
            while i < kvs.len()
                invariant
                    i <= kvs.len(),
                    self.kvs == Some(*kvs),
                    text@ == decode_utf8(key@),
                    valid_utf8(key@),
                    forall|j: int|
                        0 <= j < i ==> !(#[trigger] self@.permissions()[j]).grants(text@, ope),
                decreases kvs.len() - i,
            {
                let kv = &kvs[i];
                assert(self@.permissions()[i as int] == kv@);
                if kv.pattern.match_chars(&text) && kv.allows(ope) {
                    assert(self@.first_grant(text@, ope, i as int));
                    return Some(kv.pattern.clone());
                }
                i += 1;
            }
        }
        None
    }

    /// The permission in slot `index`, if the function declares that many.
    pub fn try_get_kv_meta_by_index(&self, index: usize) -> (r: Option<&KvMeta>)
        ensures
            match r {
                Some(kv) => index < self@.permissions().len() && kv@
                    == self@.permissions()[index as int],
                None => index >= self@.permissions().len(),
            },
    {
        if let Some(kvs) = &self.kvs {
            if index < kvs.len() {
                return Some(&kvs[index]);
            }
        }
        None
    }

    /// The permission in slot `index`, which the function must declare.
    pub fn get_kv_meta_by_index_unwrap(&self, index: usize) -> (r: &KvMeta)
        requires
            index < self@.permissions().len(),
        ensures
            r@ == self@.permissions()[index as int],
    {
        match self.try_get_kv_meta_by_index(index) {
            Some(kv) => kv,
            None => unreached(),
        }
    }

    /// The permission behind the first key mutation trigger on exactly the
    /// template of `pattern`, where `ope` is a set. Templates are compared as
    /// text: a different template that matches the same keys is not found.
    pub fn find_will_trigger_kv_event(&self, pattern: &KeyPattern, ope: KvOps) -> (r: Option<
        &KvMeta,
    >)
        ensures
            match r {
                Some(kv) => ope == KvOps::KvSet && exists|i: int|
                    #[trigger] self@.first_trigger(i, pattern@) && kv@
                        == self@.trigger_permission(i),
                None => ope != KvOps::KvSet || forall|i: int| !self@.triggers_on(i, pattern@),
            },
    {
        proof {
            use_type_invariant(self);
        }
        if ope != KvOps::KvSet {
            return None;
        }
        let mut i: usize = 0;
        while i < self.event.len()
            invariant
                i <= self.event.len(),
                self@.slots_in_range(),
                ope == KvOps::KvSet,
                forall|j: int| 0 <= j < i ==> !self@.triggers_on(j, pattern@),
            decreases self.event.len() - i,
        {
            match self.event[i] {
                FnEvent::HttpApp => {},
                FnEvent::KvSet(slot) => {
                    assert(self@.event[i as int] == FnEvent::KvSet(slot));
                    let res = self.get_kv_meta_by_index_unwrap(slot);
                    if res.pattern == *pattern {
                        assert(self@.first_trigger(i as int, pattern@));
                        return Some(res);
                    }
                },
            }
            i += 1;
        }
        None
    }
}

/// The view of a declared list of permissions, entry by entry.
proof fn lemma_declared_kvs(list: Vec<(String, Vec<String>)>)
    ensures
        list.deep_view().len() == list.len(),
        forall|i: int|
            0 <= i < list.len() ==> (#[trigger] list.deep_view()[i]) == (
                list@[i].0@,
                list@[i].1.deep_view(),
            ),
        forall|i: int, j: int|
            0 <= i < list.len() && 0 <= j < list@[i].1.len() ==> (
            #[trigger] list.deep_view()[i].1[j]) == list@[i].1@[j]@,
        forall|i: int|
            0 <= i < list.len() ==> (#[trigger] list.deep_view()[i]).1.len()
                == list@[i].1.len(),
{
}

} // verus!
