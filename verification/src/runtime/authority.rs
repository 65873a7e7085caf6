//! The authorities a module can hold over a host resource.
use vstd::prelude::*;

verus! {

/// An authority held by a module, with the reducers it drives.
#[derive(Debug, Clone)]
pub enum AuthorityEntry {
    Gpu { module_name: String, render_reducer: Option<String> },
    Audio { module_name: String, output_reducer: Option<String>, input_reducer: Option<String> },
    Input { module_name: String, input_reducer: Option<String> },
    File { module_name: String },
    Module { module_name: String },
}

/// The module that holds an authority.
pub open spec fn holder(a: AuthorityEntry) -> Seq<char> {
    match a {
        AuthorityEntry::Gpu { module_name, .. } => module_name@,
        AuthorityEntry::Audio { module_name, .. } => module_name@,
        AuthorityEntry::Input { module_name, .. } => module_name@,
        AuthorityEntry::File { module_name } => module_name@,
        AuthorityEntry::Module { module_name } => module_name@,
    }
}

impl AuthorityEntry {
    /// The module that holds this authority.
    pub fn module_name(&self) -> (r: &str)
        ensures
            r@ == holder(*self),
    {
        match self {
            AuthorityEntry::Gpu { module_name, .. } => module_name.as_str(),
            AuthorityEntry::Audio { module_name, .. } => module_name.as_str(),
            AuthorityEntry::Input { module_name, .. } => module_name.as_str(),
            AuthorityEntry::File { module_name } => module_name.as_str(),
            AuthorityEntry::Module { module_name } => module_name.as_str(),
        }
    }
}

} // verus!
