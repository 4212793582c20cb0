use crate::application::{app_defect, app_meta_of, AppMeta, AppMetaView};
use crate::assoc::{
    distinct_keys, has_key, key_at, lemma_to_map_at, lemma_to_map_concat, lemma_to_map_push,
    lemma_to_map_update, position, to_map,
};
use crate::declaration::{declarations_view, AppMetaYaml, Declarations};
use crate::error::MetaError;
use crate::function::{FnEvent, FnMeta, FnMetaView};
use crate::laws::lemma_loaded_wf;
use vstd::prelude::*;

verus! {

/// Applications as plain values, each with its name, in order.
pub type Applications = Seq<(Seq<char>, AppMetaView)>;

/// (application, function) pairs, in the order in which they were found.
pub type Triggers = Seq<(Seq<char>, Seq<char>)>;

/// The registry as plain values: each application by name, and for each
/// template the functions that a mutation of a matching key triggers.
pub struct AppMetaManagerView {
    pub apps: Map<Seq<char>, AppMetaView>,
    pub triggers: Map<Seq<char>, Triggers>,
}

impl AppMetaManagerView {
    /// The (application, function) pairs listed under `template`, in the order
    /// in which they were found; none where the template is not listed.
    pub open spec fn triggers_for(self, template: Seq<char>) -> Triggers {
        if self.triggers.contains_key(template) {
            self.triggers[template]
        } else {
            Seq::empty()
        }
    }

    /// The pair of `app` and `function` is listed under `template`.
    pub open spec fn lists(self, template: Seq<char>, app: Seq<char>, function: Seq<char>) -> bool {
        self.triggers_for(template).contains((app, function))
    }

    /// The application `app` is registered and an event of its function
    /// `function` is a key mutation trigger on `template`.
    pub open spec fn declares_trigger(
        self,
        template: Seq<char>,
        app: Seq<char>,
        function: Seq<char>,
    ) -> bool {
        &&& self.apps.contains_key(app)
        &&& exists|i: int, e: int| #[trigger]
            function_triggers(self.apps[app], i, e, function, template)
    }

    /// What holds of every registry: a template that is listed has at least
    /// one pair under it, and the pairs listed under a template are those of
    /// the registered functions with a key mutation trigger on it.
    pub open spec fn wf(self) -> bool {
        &&& forall|template: Seq<char>| #[trigger]
            self.triggers.contains_key(template) ==> self.triggers[template].len() > 0
        &&& forall|template: Seq<char>, app: Seq<char>, function: Seq<char>|
            #![trigger self.lists(template, app, function)]
            #![trigger self.declares_trigger(template, app, function)]
            self.lists(template, app, function) <==> self.declares_trigger(
                template,
                app,
                function,
            )
    }
}

/// Function `i` of an application is named `function`, and its event `e` is a
/// key mutation trigger on `template`.
pub open spec fn function_triggers(
    fns: AppMetaView,
    i: int,
    e: int,
    function: Seq<char>,
    template: Seq<char>,
) -> bool {
    0 <= i < fns.len() && fns[i].0 == function && fns[i].1.triggers_on(e, template)
}

/// The pairs that the first `n` events of one function add under `template`:
/// one for each key mutation trigger on exactly that template.
pub open spec fn fn_triggers(
    app: Seq<char>,
    name: Seq<char>,
    f: FnMetaView,
    n: int,
    template: Seq<char>,
) -> Triggers
    decreases n,
{
    if n <= 0 {
        Seq::empty()
    } else {
        let before = fn_triggers(app, name, f, n - 1, template);
        if f.triggers_on(n - 1, template) {
            before.push((app, name))
        } else {
            before
        }
    }
}

/// The pairs that the first `n` functions of one application add under
/// `template`, function after function.
pub open spec fn app_triggers(
    app: Seq<char>,
    fns: AppMetaView,
    n: int,
    template: Seq<char>,
) -> Triggers
    decreases n,
{
    if n <= 0 {
        Seq::empty()
    } else {
        app_triggers(app, fns, n - 1, template) + fn_triggers(
            app,
            fns[n - 1].0,
            fns[n - 1].1,
            fns[n - 1].1.event.len() as int,
            template,
        )
    }
}

/// The pairs that the first `n` applications add under `template`,
/// application after application.
pub open spec fn declared_triggers(apps: Applications, n: int, template: Seq<char>) -> Triggers
    decreases n,
{
    if n <= 0 {
        Seq::empty()
    } else {
        declared_triggers(apps, n - 1, template) + app_triggers(
            apps[n - 1].0,
            apps[n - 1].1,
            apps[n - 1].1.len() as int,
            template,
        )
    }
}

/// The applications that a list of named declarations describes.
pub open spec fn models(decls: Declarations) -> Applications {
    Seq::new(decls.len(), |i: int| (decls[i].0, app_meta_of(decls[i].1)))
}

/// What is wrong with declaration `i` of a load, if anything: that its name is
/// taken by a registered application or by an earlier declaration, or else
/// what is wrong with the application itself.
pub open spec fn load_entry_defect(
    reg: AppMetaManagerView,
    decls: Declarations,
    i: int,
) -> Option<MetaError> {
    if reg.apps.contains_key(decls[i].0) || exists|j: int|
        0 <= j < i && (#[trigger] decls[j]).0 == decls[i].0 {
        Some(MetaError::DuplicateApplication)
    } else {
        app_defect(decls[i].1)
    }
}

/// Declaration `i` is the first of the load with a defect.
pub open spec fn first_load_defect_at(
    reg: AppMetaManagerView,
    decls: Declarations,
    i: int,
) -> bool {
    &&& 0 <= i < decls.len()
    &&& load_entry_defect(reg, decls, i) is Some
    &&& forall|j: int| 0 <= j < i ==> load_entry_defect(reg, decls, j) is None
}

/// Why a load is refused, if it is: the defect of the first declaration that
/// has one.
pub open spec fn load_defect(reg: AppMetaManagerView, decls: Declarations) -> Option<MetaError> {
    if exists|i: int| first_load_defect_at(reg, decls, i) {
        load_entry_defect(reg, decls, choose|i: int| first_load_defect_at(reg, decls, i))
    } else {
        None
    }
}

/// The pairs under `template` after a load that is not refused: those that
/// were listed before, followed by those that the declarations add.
pub open spec fn triggers_after(
    reg: AppMetaManagerView,
    decls: Declarations,
    template: Seq<char>,
) -> Triggers {
    reg.triggers_for(template) + declared_triggers(models(decls), decls.len() as int, template)
}

/// The registry after a load that is not refused: the declared applications
/// are added under their names, and under each template the pairs found in
/// the declarations follow those that were already listed.
pub open spec fn loaded(reg: AppMetaManagerView, decls: Declarations) -> AppMetaManagerView {
    AppMetaManagerView {
        apps: reg.apps.union_prefer_right(to_map(models(decls))),
        triggers: Map::new(
            |t: Seq<char>| triggers_after(reg, decls, t).len() > 0,
            |t: Seq<char>| triggers_after(reg, decls, t),
        ),
    }
}

type Pairs = Vec<(String, String)>;

/// The stored index as named entries of plain values.
spec fn index_entries(index: Seq<(String, Pairs)>) -> Seq<(Seq<char>, Triggers)> {
    Seq::new(index.len(), |i: int| (index[i].0@, index[i].1.deep_view()))
}

/// The stored applications as named entries of plain values.
spec fn app_entries(apps: Seq<(String, AppMeta)>) -> Applications {
    Seq::new(apps.len(), |i: int| (apps[i].0@, apps[i].1@))
}

/// The stored index lists each template once, with at least one pair.
spec fn index_wf(index: Seq<(String, Pairs)>) -> bool {
    &&& distinct_keys(index_entries(index))
    &&& forall|i: int| 0 <= i < index.len() ==> (#[trigger] index[i]).1.len() > 0
}

/// The pairs that the stored index lists under `template`.
spec fn listed(index: Seq<(String, Pairs)>, template: Seq<char>) -> Triggers {
    if has_key(index_entries(index), template) {
        to_map(index_entries(index))[template]
    } else {
        Seq::empty()
    }
}

/// Lists one more pair under `template`, after those already there.
fn index_push(index: &mut Vec<(String, Pairs)>, template: &str, app: &String, name: &String)
    requires
        index_wf(old(index)@),
    ensures
        index_wf(final(index)@),
        forall|t: Seq<char>|
            #[trigger] listed(final(index)@, t) == if t == template@ {
                listed(old(index)@, t).push((app@, name@))
            } else {
                listed(old(index)@, t)
            },
{
    let ghost before = index_entries(index@);
    match position(index, template) {
        Some(i) => {
            let ghost pairs = index@[i as int].1.deep_view();
            index[i].1.push((app.clone(), name.clone()));
            proof {
                let after = index_entries(index@);
                let more = pairs.push((app@, name@));
                assert(index@[i as int].1.deep_view() =~= more);
                assert(after =~= before.update(i as int, (template@, more)));
                lemma_to_map_update(before, i as int, more);
                lemma_to_map_at(before, i as int);
                assert(key_at(before, template@, i as int));
                assert forall|t: Seq<char>|
                    #[trigger] listed(index@, t) == if t == template@ {
                        listed(old(index)@, t).push((app@, name@))
                    } else {
                        listed(old(index)@, t)
                    } by {
                    if has_key(before, t) {
                        let c = choose|c: int| key_at(before, t, c);
                        assert(key_at(after, t, c));
                    }
                    if has_key(after, t) {
                        let c = choose|c: int| key_at(after, t, c);
                        assert(key_at(before, t, c));
                    }
                }
            }
        },
        None => {
            let mut pairs: Pairs = Vec::new();
            pairs.push((app.clone(), name.clone()));
            index.push((template.to_owned(), pairs));
            proof {
                let after = index_entries(index@);
                let one = Seq::<(Seq<char>, Seq<char>)>::empty().push((app@, name@));
                assert(pairs.deep_view() =~= one);
                assert(!has_key(before, template@)) by {
                    if has_key(before, template@) {
                        let c = choose|c: int| key_at(before, template@, c);
                        assert(old(index)@[c].0@ != template@);
                    }
                }
                assert(after =~= before.push((template@, one)));
                lemma_to_map_push(before, template@, one);
                assert forall|t: Seq<char>|
                    #[trigger] listed(index@, t) == if t == template@ {
                        listed(old(index)@, t).push((app@, name@))
                    } else {
                        listed(old(index)@, t)
                    } by {
                    if has_key(before, t) {
                        let c = choose|c: int| key_at(before, t, c);
                        assert(key_at(after, t, c));
                    }
                    if has_key(after, t) {
                        let c = choose|c: int| key_at(after, t, c);
                        if c < before.len() {
                            assert(key_at(before, t, c));
                        }
                    }
                    assert(key_at(after, template@, before.len() as int));
                }
            }
        },
    }
}

/// Lists every key mutation trigger of one function, event after event.
fn index_function(index: &mut Vec<(String, Pairs)>, app: &String, name: &String, f: &FnMeta)
    requires
        index_wf(old(index)@),
    ensures
        index_wf(final(index)@),
        forall|t: Seq<char>|
            #[trigger] listed(final(index)@, t) == listed(old(index)@, t) + fn_triggers(
                app@,
                name@,
                f@,
                f@.event.len() as int,
                t,
            ),
{
    let ghost start = index@;
    let events = f.events();
    let mut i: usize = 0;
    assert forall|t: Seq<char>| #[trigger]
        listed(index@, t) == listed(start, t) + fn_triggers(app@, name@, f@, 0, t) by {
        assert(listed(start, t) + Seq::empty() =~= listed(start, t));
    }
    while i < events.len()
        invariant
            i <= events.len(),
            events@ == f@.event,
            index_wf(index@),
            forall|t: Seq<char>|
                #[trigger] listed(index@, t) == listed(start, t) + fn_triggers(
                    app@,
                    name@,
                    f@,
                    i as int,
                    t,
                ),
        decreases events.len() - i,
    {
        let ghost before = index@;
        match events[i] {
            FnEvent::KvSet(slot) => {
                match f.try_get_kv_meta_by_index(slot) {
                    Some(kv) => {
                        let template = kv.pattern().0.as_str();
                        index_push(index, template, app, name);
                        assert forall|t: Seq<char>| #[trigger]
                            listed(index@, t) == listed(start, t) + fn_triggers(
                                app@,
                                name@,
                                f@,
                                i + 1,
                                t,
                            ) by {
                            let done = fn_triggers(app@, name@, f@, i as int, t);
                            assert(listed(before, t) == listed(start, t) + done);
                            assert(f@.triggers_on(i as int, t) <==> t == template@);
                            assert((listed(start, t) + done).push((app@, name@)) =~= listed(
                                start,
                                t,
                            ) + done.push((app@, name@)));
                        }
                    },
                    None => {
                        assert forall|t: Seq<char>| #[trigger]
                            listed(index@, t) == listed(start, t) + fn_triggers(
                                app@,
                                name@,
                                f@,
                                i + 1,
                                t,
                            ) by {
                            assert(listed(before, t) == listed(start, t) + fn_triggers(
                                app@,
                                name@,
                                f@,
                                i as int,
                                t,
                            ));
                            assert(!f@.triggers_on(i as int, t));
                        }
                    },
                }
            },
            FnEvent::HttpApp => {
                assert forall|t: Seq<char>| #[trigger]
                    listed(index@, t) == listed(start, t) + fn_triggers(
                        app@,
                        name@,
                        f@,
                        i + 1,
                        t,
                    ) by {
                    assert(listed(before, t) == listed(start, t) + fn_triggers(
                        app@,
                        name@,
                        f@,
                        i as int,
                        t,
                    ));
                    assert(!f@.triggers_on(i as int, t));
                }
            },
        }
        i += 1;
    }
}

/// Lists every key mutation trigger of one application, function after function.
fn index_application(index: &mut Vec<(String, Pairs)>, app: &String, meta: &AppMeta)
    requires
        index_wf(old(index)@),
    ensures
        index_wf(final(index)@),
        forall|t: Seq<char>|
            #[trigger] listed(final(index)@, t) == listed(old(index)@, t) + app_triggers(
                app@,
                meta@,
                meta@.len() as int,
                t,
            ),
{
    let ghost start = index@;
    let fns = meta.functions();
    let mut i: usize = 0;
    assert forall|t: Seq<char>| #[trigger]
        listed(index@, t) == listed(start, t) + app_triggers(app@, meta@, 0, t) by {
        assert(listed(start, t) + Seq::empty() =~= listed(start, t));
    }
    while i < fns.len()
        invariant
            i <= fns.len(),
            fns.len() == meta@.len(),
            forall|j: int| 0 <= j < fns.len() ==> ((#[trigger] fns@[j]).0@, fns@[j].1@) == meta@[j],
            index_wf(index@),
            forall|t: Seq<char>|
                #[trigger] listed(index@, t) == listed(start, t) + app_triggers(
                    app@,
                    meta@,
                    i as int,
                    t,
                ),
        decreases fns.len() - i,
    {
        let ghost before = index@;
        assert(meta@[i as int] == (fns@[i as int].0@, fns@[i as int].1@));
        index_function(index, app, &fns[i].0, &fns[i].1);
        assert forall|t: Seq<char>| #[trigger]
            listed(index@, t) == listed(start, t) + app_triggers(app@, meta@, i + 1, t) by {
            let done = app_triggers(app@, meta@, i as int, t);
            let more = fn_triggers(
                app@,
                meta@[i as int].0,
                meta@[i as int].1,
                meta@[i as int].1.event.len() as int,
                t,
            );
            assert(listed(before, t) == listed(start, t) + done);
            assert(listed(index@, t) == listed(before, t) + more);
            assert((listed(start, t) + done) + more =~= listed(start, t) + (done + more));
        }
        i += 1;
    }
}

/// A defect with none before it is the defect of the whole load.
proof fn lemma_first_load_defect(reg: AppMetaManagerView, decls: Declarations, i: int)
    requires
        first_load_defect_at(reg, decls, i),
    ensures
        load_defect(reg, decls) == load_entry_defect(reg, decls, i),
{
    let c = choose|c: int| first_load_defect_at(reg, decls, c);
    if c < i {
        assert(load_entry_defect(reg, decls, c) is None);
    } else if i < c {
        assert(load_entry_defect(reg, decls, i) is None);
    }
}

/// The routing table of a worker: the applications it serves, and for each
/// key template the functions that a mutation of a matching key triggers.
pub struct AppMetaManager {
    app_metas: Vec<(String, AppMeta)>,
    pattern_2_app_fn: Vec<(String, Pairs)>,
}

impl View for AppMetaManager {
    type V = AppMetaManagerView;

    closed spec fn view(&self) -> AppMetaManagerView {
        AppMetaManagerView {
            apps: to_map(app_entries(self.app_metas@)),
            triggers: to_map(index_entries(self.pattern_2_app_fn@)),
        }
    }
}

impl AppMetaManager {
    #[verifier::type_invariant]
    spec fn inv(&self) -> bool {
        &&& distinct_keys(app_entries(self.app_metas@))
        &&& index_wf(self.pattern_2_app_fn@)
        &&& self@.wf()
    }

    /// A registry with no application and no trigger.
    pub fn new() -> (r: Self)
        ensures
            r@.apps == Map::<Seq<char>, AppMetaView>::empty(),
            r@.triggers == Map::<Seq<char>, Triggers>::empty(),
            r@.wf(),
    {
        let app_metas: Vec<(String, AppMeta)> = Vec::new();
        let pattern_2_app_fn: Vec<(String, Pairs)> = Vec::new();
        proof {
            let apps = to_map(app_entries(app_metas@));
            let triggers = to_map(index_entries(pattern_2_app_fn@));
            assert(apps =~= Map::<Seq<char>, AppMetaView>::empty());
            assert(triggers =~= Map::<Seq<char>, Triggers>::empty());
            let empty = AppMetaManagerView { apps, triggers };
            assert forall|template: Seq<char>, app: Seq<char>, function: Seq<char>|
                #![trigger empty.lists(template, app, function)]
                #![trigger empty.declares_trigger(template, app, function)]
                empty.lists(template, app, function) <==> empty.declares_trigger(
                    template,
                    app,
                    function,
                ) by {
                assert(empty.triggers_for(template).len() == 0);
            }
        }
        Self { app_metas, pattern_2_app_fn }
    }

    /// The application registered under the name `app`.
    pub fn get_app_meta(&self, app: &str) -> (r: Option<&AppMeta>)
        ensures
            match r {
                Some(meta) => self@.apps.contains_key(app@) && meta@ == self@.apps[app@],
                None => !self@.apps.contains_key(app@),
            },
            self@.wf(),
    {
        proof {
            use_type_invariant(self);
        }
        let ghost entries = app_entries(self.app_metas@);
        match position(&self.app_metas, app) {
            Some(i) => {
                proof {
                    lemma_to_map_at(entries, i as int);
                }
                Some(&self.app_metas[i].1)
            },
            None => {
                assert(!has_key(entries, app@)) by {
                    if has_key(entries, app@) {
                        let c = choose|c: int| key_at(entries, app@, c);
                        assert(self.app_metas@[c].0@ != app@);
                    }
                }
                None
            },
        }
    }

    /// The (application, function) pairs listed under exactly the template
    /// `pattern`, in the order in which they were found. The template is
    /// looked up as text: no key is matched against it.
    pub fn get_pattern_triggers(&self, pattern: &str) -> (r: Option<&Vec<(String, String)>>)
        ensures
            match r {
                Some(pairs) => self@.triggers.contains_key(pattern@) && pairs.deep_view()
                    == self@.triggers[pattern@],
                None => !self@.triggers.contains_key(pattern@),
            },
            self@.wf(),
    {
        proof {
            use_type_invariant(self);
        }
        let ghost entries = index_entries(self.pattern_2_app_fn@);
        match position(&self.pattern_2_app_fn, pattern) {
            Some(i) => {
                proof {
                    lemma_to_map_at(entries, i as int);
                }
                Some(&self.pattern_2_app_fn[i].1)
            },
            None => {
                assert(!has_key(entries, pattern@)) by {
                    if has_key(entries, pattern@) {
                        let c = choose|c: int| key_at(entries, pattern@, c);
                        assert(self.pattern_2_app_fn@[c].0@ != pattern@);
                    }
                }
                None
            },
        }
    }

    /// Registers every declared application and lists its key mutation
    /// triggers, or refuses the whole load and leaves the registry as it was.
    ///
    /// The declarations are taken in order. A load is refused when a name is
    /// already taken, an operation name is unknown, a slot is out of range or
    /// a function name is repeated; the error is that of the first
    /// declaration with a defect.
    pub fn load_all_app_meta(&mut self, apps: &Vec<(String, AppMetaYaml)>) -> (r: Result<
        (),
        MetaError,
    >)
        ensures
            match r {
                Ok(_) => {
                    &&& load_defect(old(self)@, declarations_view(apps@)) is None
                    &&& final(self)@ == loaded(old(self)@, declarations_view(apps@))
                },
                Err(e) => {
                    &&& load_defect(old(self)@, declarations_view(apps@)) == Some(e)
                    &&& *final(self) == *old(self)
                },
            },
            final(self)@.wf(),
    {
        proof {
            use_type_invariant(&*self);
        }
        let ghost reg = self@;
        let ghost decls = declarations_view(apps@);
        let ghost registered = app_entries(self.app_metas@);
        let mut converted: Vec<(String, AppMeta)> = Vec::new();
        let mut i: usize = 0;
        while i < apps.len()
            invariant
                i <= apps.len(),
                *self == *old(self),
                reg == self@,
                reg.wf(),
                decls == declarations_view(apps@),
                registered == app_entries(self.app_metas@),
                converted.len() == i,
                forall|j: int| 0 <= j < i ==> load_entry_defect(reg, decls, j) is None,
                forall|j: int|
                    0 <= j < i ==> (#[trigger] converted@[j]).0@ == decls[j].0 && converted@[j].1@
                        == app_meta_of(decls[j].1),
            decreases apps.len() - i,
        {
            let name = &apps[i].0;
            assert(decls[i as int] == (name@, apps@[i as int].1@));
            let taken = position(&self.app_metas, name.as_str()).is_some();
            proof {
                if taken {
                    let c = choose|c: int|
                        0 <= c < self.app_metas@.len() && (#[trigger] self.app_metas@[c]).0@
                            == name@;
                    assert(key_at(registered, name@, c));
                } else {
                    if has_key(registered, name@) {
                        let c = choose|c: int| key_at(registered, name@, c);
                        assert(self.app_metas@[c].0@ != name@);
                    }
                }
                assert(taken == reg.apps.contains_key(name@));
            }
            let repeated = position(&converted, name.as_str()).is_some();
            proof {
                if repeated {
                    let c = choose|c: int| 0 <= c < i && (#[trigger] converted@[c]).0@ == name@;
                    assert(decls[c].0 == decls[i as int].0);
                } else {
                    if exists|j: int| 0 <= j < i && (#[trigger] decls[j]).0 == decls[i as int].0 {
                        let j = choose|j: int|
                            0 <= j < i && (#[trigger] decls[j]).0 == decls[i as int].0;
                        assert(converted@[j].0@ != name@);
                    }
                }
            }
            if taken || repeated {
                proof {
                    lemma_first_load_defect(reg, decls, i as int);
                }
                return Err(MetaError::DuplicateApplication);
            }
            let meta = match AppMeta::from_yaml(&apps[i].1) {
                Ok(meta) => meta,
                Err(e) => {
                    proof {
                        lemma_first_load_defect(reg, decls, i as int);
                    }
                    return Err(e);
                },
            };
            converted.push((name.clone(), meta));
            i += 1;
        }
        assert(load_defect(reg, decls) is None) by {
            if exists|c: int| first_load_defect_at(reg, decls, c) {
                let c = choose|c: int| first_load_defect_at(reg, decls, c);
                assert(load_entry_defect(reg, decls, c) is None);
            }
        }
        let ghost found = app_entries(converted@);
        assert(found =~= models(decls));

        let mut taken = AppMetaManager::new();
        core::mem::swap(self, &mut taken);
        let AppMetaManager { app_metas: mut metas, pattern_2_app_fn: mut index } = taken;
        let ghost start = index@;
        assert forall|t: Seq<char>| #[trigger]
            listed(index@, t) == listed(start, t) + declared_triggers(found, 0, t) by {
            assert(listed(start, t) + Seq::empty() =~= listed(start, t));
        }
        let mut k: usize = 0;
        while k < converted.len()
            invariant
                k <= converted.len(),
                found == app_entries(converted@),
                index_wf(index@),
                forall|t: Seq<char>|
                    #[trigger] listed(index@, t) == listed(start, t) + declared_triggers(
                        found,
                        k as int,
                        t,
                    ),
            decreases converted.len() - k,
        {
            let ghost before = index@;
            assert(found[k as int] == (converted@[k as int].0@, converted@[k as int].1@));
            index_application(&mut index, &converted[k].0, &converted[k].1);
            assert forall|t: Seq<char>| #[trigger]
                listed(index@, t) == listed(start, t) + declared_triggers(found, k + 1, t) by {
                let done = declared_triggers(found, k as int, t);
                let more = app_triggers(
                    found[k as int].0,
                    found[k as int].1,
                    found[k as int].1.len() as int,
                    t,
                );
                assert(listed(before, t) == listed(start, t) + done);
                assert(listed(index@, t) == listed(before, t) + more);
                assert((listed(start, t) + done) + more =~= listed(start, t) + (done + more));
            }
            k += 1;
        }
        metas.append(&mut converted);
        proof {
            assert(app_entries(metas@) =~= registered + found);
            assert(distinct_keys(registered + found)) by {
                let all = registered + found;
                assert forall|a: int, b: int| 0 <= a < b < all.len() implies (#[trigger] all[a]).0
                    != (#[trigger] all[b]).0 by {
                    if b < registered.len() {
                        assert(registered[a].0 != registered[b].0);
                    } else {
                        let j = b - registered.len();
                        assert(load_entry_defect(reg, decls, j) is None);
                        if a < registered.len() {
                            assert(key_at(registered, registered[a].0, a));
                        } else {
                            assert(decls[a - registered.len()].0 != decls[j].0);
                        }
                    }
                }
            }
            lemma_to_map_concat(registered, found);
            let want = loaded(reg, decls);
            let entries = index_entries(index@);
            assert forall|t: Seq<char>| has_key(entries, t) <==> (listed(index@, t).len()
                > 0) by {
                if has_key(entries, t) {
                    let c = choose|c: int| key_at(entries, t, c);
                    lemma_to_map_at(entries, c);
                    assert(index@[c].1.len() > 0);
                }
            }
            assert(to_map(entries) =~= want.triggers);
            assert(to_map(app_entries(metas@)) == want.apps);
            lemma_loaded_wf(reg, decls);
        }
        *self = AppMetaManager { app_metas: metas, pattern_2_app_fn: index };
        Ok(())
    }
}

} // verus!
