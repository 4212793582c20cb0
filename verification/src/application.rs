use crate::assoc::{distinct_keys, position};
use crate::declaration::{AppMetaYaml, AppMetaYamlView};
use crate::error::MetaError;
use crate::function::{fn_defect, fn_meta_of, FnMeta, FnMetaView};
use vstd::prelude::*;

verus! {

/// An application as plain values: its functions by name, in declared order.
pub type AppMetaView = Seq<(Seq<char>, FnMetaView)>;

/// The functions that a list of named declarations describes, in the same order.
pub open spec fn app_meta_of(fns: AppMetaYamlView) -> AppMetaView {
    Seq::new(fns.len(), |i: int| (fns[i].0, fn_meta_of(fns[i].1)))
}

/// What is wrong with declaration `i` of an application, if anything: what is
/// wrong with the function itself, or else that an earlier function has its name.
pub open spec fn entry_defect(fns: AppMetaYamlView, i: int) -> Option<MetaError> {
    match fn_defect(fns[i].1) {
        Some(e) => Some(e),
        None => if exists|j: int| 0 <= j < i && (#[trigger] fns[j]).0 == fns[i].0 {
            Some(MetaError::DuplicateFunction)
        } else {
            None
        },
    }
}

/// Declaration `i` is the first with a defect.
pub open spec fn first_defect_at(fns: AppMetaYamlView, i: int) -> bool {
    &&& 0 <= i < fns.len()
    &&& entry_defect(fns, i) is Some
    &&& forall|j: int| 0 <= j < i ==> entry_defect(fns, j) is None
}

/// What is wrong with an application's declarations, if anything: the defect
/// of the first declaration that has one.
pub open spec fn app_defect(fns: AppMetaYamlView) -> Option<MetaError> {
    if exists|i: int| first_defect_at(fns, i) {
        entry_defect(fns, choose|i: int| first_defect_at(fns, i))
    } else {
        None
    }
}

/// Function `i` is the first that an HTTP invocation triggers.
pub open spec fn first_http_at(fns: AppMetaView, i: int) -> bool {
    &&& 0 <= i < fns.len()
    &&& fns[i].1.http_triggered()
    &&& forall|j: int| 0 <= j < i ==> !(#[trigger] fns[j]).1.http_triggered()
}

/// The functions of one application, each under its own name.
pub struct AppMeta {
    fns: Vec<(String, FnMeta)>,
}

impl View for AppMeta {
    type V = AppMetaView;

    closed spec fn view(&self) -> AppMetaView {
        Seq::new(self.fns@.len(), |i: int| (self.fns@[i].0@, self.fns@[i].1@))
    }
}

impl AppMeta {
    /// No two functions share a name.
    #[verifier::type_invariant]
    pub open spec fn inv(&self) -> bool {
        distinct_keys(self@)
    }

    /// The application that `yaml` declares, or the defect of the first
    /// function declaration that has one.
    pub fn from_yaml(yaml: &AppMetaYaml) -> (r: Result<AppMeta, MetaError>)
        ensures
            match r {
                Ok(app) => app_defect(yaml@) is None && app@ == app_meta_of(yaml@),
                Err(e) => app_defect(yaml@) == Some(e),
            },
    {
        let ghost decls = yaml@;
        let mut fns: Vec<(String, FnMeta)> = Vec::new();
        let mut i: usize = 0;
        while i < yaml.fns.len()
            invariant
                i <= yaml.fns.len(),
                decls == yaml@,
                fns.len() == i,
                forall|j: int| 0 <= j < i ==> entry_defect(decls, j) is None,
                forall|j: int|
                    0 <= j < i ==> (#[trigger] fns@[j]).0@ == decls[j].0 && fns@[j].1@
                        == fn_meta_of(decls[j].1),
                forall|a: int, b: int|
                    0 <= a < b < i ==> (#[trigger] fns@[a]).0@ != (#[trigger] fns@[b]).0@,
            decreases yaml.fns.len() - i,
        {
            let name = &yaml.fns[i].0;
            assert(decls[i as int] == (name@, yaml.fns@[i as int].1@));
            let f = match FnMeta::from_yaml(&yaml.fns[i].1) {
                Ok(f) => f,
                Err(e) => {
                    proof {
                        lemma_first_defect(decls, i as int);
                    }
                    return Err(e);
                },
            };
            if position(&fns, name.as_str()).is_some() {
                proof {
                    let j = choose|j: int| 0 <= j < i && (#[trigger] fns@[j]).0@ == name@;
                    assert(decls[j].0 == decls[i as int].0);
                    lemma_first_defect(decls, i as int);
                }
                return Err(MetaError::DuplicateFunction);
            }
            assert(entry_defect(decls, i as int) is None) by {
                if exists|j: int| 0 <= j < i && (#[trigger] decls[j]).0 == name@ {
                    let j = choose|j: int| 0 <= j < i && (#[trigger] decls[j]).0 == name@;
                    assert(fns@[j].0@ == name@);
                }
            }
            fns.push((name.clone(), f));
            i += 1;
        }
        assert(distinct_keys(Seq::new(fns@.len(), |i: int| (fns@[i].0@, fns@[i].1@))));
        let app = AppMeta { fns };
        assert(app@ =~= app_meta_of(decls));
        Ok(app)
    }

    /// The functions with their names, in declared order.
    pub fn functions(&self) -> (r: &Vec<(String, FnMeta)>)
        ensures
            r.len() == self@.len(),
            forall|i: int|
                0 <= i < r.len() ==> ((#[trigger] r@[i]).0@, r@[i].1@) == self@[i],
    {
        &self.fns
    }

    /// The function named `fnname`, if the application has one.
    pub fn get_fn_meta(&self, fnname: &str) -> (r: Option<&FnMeta>)
        ensures
            match r {
                Some(f) => exists|i: int|
                    0 <= i < self@.len() && #[trigger] self@[i] == (fnname@, f@),
                None => forall|i: int| 0 <= i < self@.len() ==> (#[trigger] self@[i]).0 != fnname@,
            },
            distinct_keys(self@),
    {
        proof {
            use_type_invariant(self);
        }
        match position(&self.fns, fnname) {
            Some(i) => {
                assert(self@[i as int] == (fnname@, self.fns@[i as int].1@));
                Some(&self.fns[i].1)
            },
            None => {
                assert forall|i: int| 0 <= i < self@.len() implies (#[trigger] self@[i]).0
                    != fnname@ by {
                    assert(self.fns@[i].0@ != fnname@);
                }
                None
            },
        }
    }

    /// The name of the first function, in declared order, that an HTTP
    /// invocation triggers.
    pub fn http_trigger_fn(&self) -> (r: Option<&str>)
        ensures
            match r {
                Some(name) => exists|i: int| #[trigger]
                    first_http_at(self@, i) && name@ == self@[i].0,
                None => forall|i: int|
                    0 <= i < self@.len() ==> !(#[trigger] self@[i]).1.http_triggered(),
            },
    {
        let mut i: usize = 0;
        while i < self.fns.len()
            invariant
                i <= self.fns.len(),
                forall|j: int| 0 <= j < i ==> !(#[trigger] self@[j]).1.http_triggered(),
            decreases self.fns.len() - i,
        {
            assert(self@[i as int] == (self.fns@[i as int].0@, self.fns@[i as int].1@));
            if self.fns[i].1.is_http_triggered() {
                assert(first_http_at(self@, i as int));
                return Some(self.fns[i].0.as_str());
            }
            i += 1;
        }
        None
    }
}

/// A defect with none before it is the defect of the whole application.
proof fn lemma_first_defect(fns: AppMetaYamlView, i: int)
    requires
        first_defect_at(fns, i),
    ensures
        app_defect(fns) == entry_defect(fns, i),
{
    let c = choose|c: int| first_defect_at(fns, c);
    if c < i {
        assert(entry_defect(fns, c) is None);
    } else if i < c {
        assert(entry_defect(fns, i) is None);
    }
}

} // verus!
