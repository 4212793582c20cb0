use vstd::prelude::*;

verus! {

/// A trigger event as it is declared: the field that is present tells the kind.
#[derive(Clone, Copy, Debug)]
pub enum FnEventYaml {
    HttpApp { http_app: () },
    KvSet { kv_set: usize },
}

/// An argument binding as it is declared.
#[derive(Clone, Copy, Debug)]
pub enum FnArgYaml {
    KvKey { kv_key: usize },
    HttpText { http_text: () },
}

/// One function as it is declared. `kvs` lists the key permissions in slot
/// order: a template and the names of the operations allowed on matching keys.
#[derive(Debug)]
pub struct FnMetaYaml {
    pub event: Vec<FnEventYaml>,
    pub args: Vec<FnArgYaml>,
    pub kvs: Option<Vec<(String, Vec<String>)>>,
}

/// One application as it is declared: its functions by name.
#[derive(Debug)]
pub struct AppMetaYaml {
    pub fns: Vec<(String, FnMetaYaml)>,
}

/// What a function declaration says, as plain mathematical values.
pub struct FnMetaYamlView {
    pub event: Seq<FnEventYaml>,
    pub args: Seq<FnArgYaml>,
    pub kvs: Option<Seq<(Seq<char>, Seq<Seq<char>>)>>,
}

impl View for FnMetaYaml {
    type V = FnMetaYamlView;

    open spec fn view(&self) -> FnMetaYamlView {
        FnMetaYamlView { event: self.event@, args: self.args@, kvs: self.kvs.deep_view() }
    }
}

/// What an application declaration says: its function declarations by name,
/// in declared order.
pub type AppMetaYamlView = Seq<(Seq<char>, FnMetaYamlView)>;

/// What a list of application declarations says: each with its name, in order.
pub type Declarations = Seq<(Seq<char>, AppMetaYamlView)>;

impl View for AppMetaYaml {
    type V = AppMetaYamlView;

    open spec fn view(&self) -> AppMetaYamlView {
        Seq::new(self.fns@.len(), |i: int| (self.fns@[i].0@, self.fns@[i].1@))
    }
}

/// What a list of named application declarations says.
pub open spec fn declarations_view(apps: Seq<(String, AppMetaYaml)>) -> Declarations {
    Seq::new(apps.len(), |i: int| (apps[i].0@, apps[i].1@))
}

} // verus!
