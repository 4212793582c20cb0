use crate::application::{app_defect, entry_defect, first_defect_at, AppMetaView};
use crate::declaration::{AppMetaYamlView, Declarations};
use crate::function::{fn_defect, fn_meta_of, op_known, FnEvent, FnMetaView};
use crate::assoc::{distinct_keys, has_key, key_at, lemma_to_map_at, to_map};
use crate::registry::{
    declared_triggers, app_triggers, first_load_defect_at, fn_triggers, load_defect,
    function_triggers, load_entry_defect, loaded, models, triggers_after, AppMetaManagerView,
    Applications,
};
use vstd::prelude::*;

verus! {

/// An application with a defective declaration has a defect.
pub proof fn lemma_app_defect_found(fns: AppMetaYamlView, i: int)
    requires
        0 <= i < fns.len(),
        entry_defect(fns, i) is Some,
    ensures
        app_defect(fns) is Some,
    decreases i,
{
    if forall|j: int| 0 <= j < i ==> entry_defect(fns, j) is None {
        assert(first_defect_at(fns, i));
    } else {
        let j = choose|j: int| 0 <= j < i && entry_defect(fns, j) is Some;
        lemma_app_defect_found(fns, j);
    }
}

/// A load with a defective declaration is refused.
pub proof fn lemma_load_defect_found(reg: AppMetaManagerView, decls: Declarations, i: int)
    requires
        0 <= i < decls.len(),
        load_entry_defect(reg, decls, i) is Some,
    ensures
        load_defect(reg, decls) is Some,
    decreases i,
{
    if forall|j: int| 0 <= j < i ==> load_entry_defect(reg, decls, j) is None {
        assert(first_load_defect_at(reg, decls, i));
    } else {
        let j = choose|j: int| 0 <= j < i && load_entry_defect(reg, decls, j) is Some;
        lemma_load_defect_found(reg, decls, j);
    }
}

/// A load is refused as a whole when any function of any declared application
/// names an operation other than `set`, `get` and `delete`.
pub proof fn lemma_unknown_operation_refused(
    reg: AppMetaManagerView,
    decls: Declarations,
    app: int,
    function: int,
    slot: int,
    op: int,
)
    requires
        0 <= app < decls.len(),
        0 <= function < decls[app].1.len(),
        decls[app].1[function].1.kvs is Some,
        0 <= slot < decls[app].1[function].1.kvs->0.len(),
        0 <= op < decls[app].1[function].1.kvs->0[slot].1.len(),
        !op_known(decls[app].1[function].1.kvs->0[slot].1[op]),
    ensures
        load_defect(reg, decls) is Some,
{
    let y = decls[app].1[function].1;
    assert(fn_defect(y) == Some(crate::error::MetaError::InvalidOperation));
    lemma_app_defect_found(decls[app].1, function);
    lemma_load_defect_found(reg, decls, app);
}

/// A load is refused as a whole when any key mutation trigger of any declared
/// function refers to a slot at or past the end of that function's permissions.
pub proof fn lemma_slot_out_of_range_refused(
    reg: AppMetaManagerView,
    decls: Declarations,
    app: int,
    function: int,
    event: int,
)
    requires
        0 <= app < decls.len(),
        0 <= function < decls[app].1.len(),
        0 <= event < decls[app].1[function].1.event.len(),
        fn_meta_of(decls[app].1[function].1).event[event] matches FnEvent::KvSet(slot) && slot
            >= fn_meta_of(decls[app].1[function].1).permissions().len(),
    ensures
        load_defect(reg, decls) is Some,
{
    let y = decls[app].1[function].1;
    assert(!fn_meta_of(y).slots_in_range());
    assert(fn_defect(y) is Some);
    lemma_app_defect_found(decls[app].1, function);
    lemma_load_defect_found(reg, decls, app);
}

/// After a load, the pairs under a template are those that were listed
/// before, followed by those that the declarations add.
pub proof fn lemma_loaded_triggers(
    reg: AppMetaManagerView,
    decls: Declarations,
    template: Seq<char>,
)
    ensures
        loaded(reg, decls).triggers_for(template) == triggers_after(reg, decls, template),
{
    let sum = triggers_after(reg, decls, template);
    if sum.len() == 0 {
        assert(sum =~= Seq::empty());
    }
}

/// What the first events of a function add stays in front when more events
/// are read.
pub proof fn lemma_fn_triggers_grow(
    app: Seq<char>,
    name: Seq<char>,
    f: FnMetaView,
    i: int,
    n: int,
    template: Seq<char>,
)
    requires
        0 <= i <= n,
    ensures
        fn_triggers(app, name, f, i, template).is_prefix_of(
            fn_triggers(app, name, f, n, template),
        ),
    decreases n - i,
{
    if i < n {
        lemma_fn_triggers_grow(app, name, f, i, n - 1, template);
    }
}

/// What the first functions of an application add stays in front when more
/// functions are read.
pub proof fn lemma_app_triggers_grow(
    app: Seq<char>,
    fns: AppMetaView,
    i: int,
    n: int,
    template: Seq<char>,
)
    requires
        0 <= i <= n,
    ensures
        app_triggers(app, fns, i, template).is_prefix_of(app_triggers(app, fns, n, template)),
    decreases n - i,
{
    if i < n {
        lemma_app_triggers_grow(app, fns, i, n - 1, template);
    }
}

/// Discovery order: what the first applications add under a template stays
/// in front, unchanged, when more applications are read.
pub proof fn lemma_declared_triggers_grow(apps: Applications, i: int, n: int, template: Seq<char>)
    requires
        0 <= i <= n,
    ensures
        declared_triggers(apps, i, template).is_prefix_of(declared_triggers(apps, n, template)),
    decreases n - i,
{
    if i < n {
        lemma_declared_triggers_grow(apps, i, n - 1, template);
    }
}

/// Event `event` of function `function` of application `app` is a key
/// mutation trigger on `template`, and `pair` names that application and
/// that function.
pub open spec fn declares(
    apps: Applications,
    app: int,
    function: int,
    event: int,
    template: Seq<char>,
    pair: (Seq<char>, Seq<char>),
) -> bool {
    &&& 0 <= app < apps.len()
    &&& 0 <= function < apps[app].1.len()
    &&& apps[app].1[function].1.triggers_on(event, template)
    &&& pair == (apps[app].0, apps[app].1[function].0)
}

/// No trigger is dropped: every key mutation trigger of every function of
/// every application is listed under the template of its permission, as the
/// pair of that application and that function.
pub proof fn lemma_every_trigger_listed(
    apps: Applications,
    app: int,
    function: int,
    event: int,
    template: Seq<char>,
)
    requires
        declares(apps, app, function, event, template, (apps[app].0, apps[app].1[function].0)),
    ensures
        declared_triggers(apps, apps.len() as int, template).contains(
            (apps[app].0, apps[app].1[function].0),
        ),
{
    let name = apps[app].0;
    let fns = apps[app].1;
    let f = fns[function].1;
    let pair = (name, fns[function].0);
    let in_fn = fn_triggers(name, fns[function].0, f, event + 1, template);
    assert(in_fn.last() == pair);
    let whole_fn = fn_triggers(name, fns[function].0, f, f.event.len() as int, template);
    lemma_fn_triggers_grow(name, fns[function].0, f, event + 1, f.event.len() as int, template);
    assert(whole_fn[in_fn.len() - 1] == pair);
    let in_app = app_triggers(name, fns, function + 1, template);
    let at = app_triggers(name, fns, function, template).len() + in_fn.len() - 1;
    assert(in_app[at] == pair);
    let whole_app = app_triggers(name, fns, fns.len() as int, template);
    lemma_app_triggers_grow(name, fns, function + 1, fns.len() as int, template);
    assert(whole_app[at] == pair);
    let in_all = declared_triggers(apps, app + 1, template);
    let pos = declared_triggers(apps, app, template).len() + at;
    assert(in_all[pos] == pair);
    let whole = declared_triggers(apps, apps.len() as int, template);
    lemma_declared_triggers_grow(apps, app + 1, apps.len() as int, template);
    assert(whole[pos] == pair);
}

/// A load that is not refused has no declaration with a defect.
pub proof fn lemma_accepted_load(reg: AppMetaManagerView, decls: Declarations, i: int)
    requires
        load_defect(reg, decls) is None,
        0 <= i < decls.len(),
    ensures
        load_entry_defect(reg, decls, i) is None,
{
    if load_entry_defect(reg, decls, i) is Some {
        lemma_load_defect_found(reg, decls, i);
    }
}

/// What holds of every registry still holds after a load: the index lists
/// exactly the key mutation triggers of the registered functions.
pub proof fn lemma_loaded_wf(reg: AppMetaManagerView, decls: Declarations)
    requires
        reg.wf(),
        load_defect(reg, decls) is None,
    ensures
        loaded(reg, decls).wf(),
{
    let after = loaded(reg, decls);
    let apps = models(decls);
    let n = decls.len() as int;
    assert forall|k: int| 0 <= k < n implies !reg.apps.contains_key(#[trigger] apps[k].0) by {
        lemma_accepted_load(reg, decls, k);
    }
    assert(distinct_keys(apps)) by {
        assert forall|a: int, b: int| 0 <= a < b < n implies (#[trigger] apps[a]).0 != (
        #[trigger] apps[b]).0 by {
            lemma_accepted_load(reg, decls, b);
            assert(decls[a].0 == apps[a].0);
        }
    }
    assert forall|template: Seq<char>, app: Seq<char>, function: Seq<char>|
        #![trigger after.lists(template, app, function)]
        #![trigger after.declares_trigger(template, app, function)]
        after.lists(template, app, function) <==> after.declares_trigger(
            template,
            app,
            function,
        ) by {
        let pair = (app, function);
        let old_list = reg.triggers_for(template);
        let new_list = declared_triggers(apps, n, template);
        lemma_loaded_triggers(reg, decls, template);
        assert(after.triggers_for(template) == old_list + new_list);
        if after.lists(template, app, function) {
            let p = choose|p: int|
                0 <= p < (old_list + new_list).len() && (old_list + new_list)[p] == pair;
            if p < old_list.len() {
                assert(old_list[p] == pair);
                assert(reg.lists(template, app, function));
                assert(reg.declares_trigger(template, app, function));
                if has_key(apps, app) {
                    let k = choose|k: int| key_at(apps, app, k);
                    assert(!reg.apps.contains_key(apps[k].0));
                }
                assert(after.apps[app] == reg.apps[app]);
                let (i, e) = choose|i: int, e: int| #[trigger]
                    function_triggers(reg.apps[app], i, e, function, template);
                assert(function_triggers(after.apps[app], i, e, function, template));
            } else {
                let at = lemma_listed_trigger_declared(apps, n, template, p - old_list.len());
                assert(new_list[p - old_list.len()] == pair);
                lemma_to_map_at(apps, at.0);
                assert(key_at(apps, app, at.0));
                assert(after.apps[app] == apps[at.0].1);
                assert(function_triggers(after.apps[app], at.1, at.2, function, template));
            }
        }
        if after.declares_trigger(template, app, function) {
            let (i, e) = choose|i: int, e: int| #[trigger]
                function_triggers(after.apps[app], i, e, function, template);
            if has_key(apps, app) {
                let k = choose|k: int| key_at(apps, app, k);
                lemma_to_map_at(apps, k);
                assert(after.apps[app] == apps[k].1);
                lemma_every_trigger_listed(apps, k, i, e, template);
                let q = choose|q: int| 0 <= q < new_list.len() && new_list[q] == pair;
                assert((old_list + new_list)[old_list.len() + q] == pair);
            } else {
                assert(after.apps[app] == reg.apps[app]);
                assert(function_triggers(reg.apps[app], i, e, function, template));
                assert(reg.declares_trigger(template, app, function));
                assert(reg.lists(template, app, function));
                let q = choose|q: int| 0 <= q < old_list.len() && old_list[q] == pair;
                assert((old_list + new_list)[q] == pair);
            }
        }
    }
}

/// Every pair that the first `n` events of a function add comes from one of
/// those events.
proof fn lemma_fn_pair_declared(
    app: Seq<char>,
    name: Seq<char>,
    f: FnMetaView,
    n: int,
    template: Seq<char>,
    p: int,
) -> (event: int)
    requires
        0 <= p < fn_triggers(app, name, f, n, template).len(),
    ensures
        0 <= event < n,
        f.triggers_on(event, template),
        fn_triggers(app, name, f, n, template)[p] == (app, name),
    decreases n,
{
    let before = fn_triggers(app, name, f, n - 1, template);
    if p < before.len() {
        lemma_fn_pair_declared(app, name, f, n - 1, template, p)
    } else {
        n - 1
    }
}

/// Every pair that the first `n` functions of an application add comes from
/// an event of one of those functions.
proof fn lemma_app_pair_declared(
    app: Seq<char>,
    fns: AppMetaView,
    n: int,
    template: Seq<char>,
    p: int,
) -> (at: (int, int))
    requires
        0 <= n <= fns.len(),
        0 <= p < app_triggers(app, fns, n, template).len(),
    ensures
        0 <= at.0 < n,
        fns[at.0].1.triggers_on(at.1, template),
        app_triggers(app, fns, n, template)[p] == (app, fns[at.0].0),
    decreases n,
{
    let before = app_triggers(app, fns, n - 1, template);
    if p < before.len() {
        lemma_app_pair_declared(app, fns, n - 1, template, p)
    } else {
        let f = fns[n - 1];
        let event = lemma_fn_pair_declared(
            app,
            f.0,
            f.1,
            f.1.event.len() as int,
            template,
            p - before.len(),
        );
        (n - 1, event)
    }
}

/// No trigger is invented: every pair listed under a template is the
/// application and the function of some key mutation trigger on that template.
pub proof fn lemma_listed_trigger_declared(
    apps: Applications,
    n: int,
    template: Seq<char>,
    p: int,
) -> (at: (int, int, int))
    requires
        0 <= n <= apps.len(),
        0 <= p < declared_triggers(apps, n, template).len(),
    ensures
        at.0 < n,
        declares(apps, at.0, at.1, at.2, template, declared_triggers(apps, n, template)[p]),
    decreases n,
{
    let before = declared_triggers(apps, n - 1, template);
    if p < before.len() {
        lemma_listed_trigger_declared(apps, n - 1, template, p)
    } else {
        let app = apps[n - 1];
        let (function, event) = lemma_app_pair_declared(
            app.0,
            app.1,
            app.1.len() as int,
            template,
            p - before.len(),
        );
        (n - 1, function, event)
    }
}

} // verus!
