use vstd::prelude::*;

verus! {

/// What the analysis driver carries from its command line into the passes that it
/// runs over the host's type declarations.
pub struct BevyAnalyzerCallbacks<A> {
    pub args: A,
}

impl<A> BevyAnalyzerCallbacks<A> {
    pub fn new(args: A) -> (r: Self)
        ensures
            r.args == args,
    {
        BevyAnalyzerCallbacks { args }
    }
}

/// What the binding generator hands to its templates for a whole run: the crates it
/// made bindings for, and the name of the script API.
pub struct Collect<M> {
    pub crates: Vec<Crate<M>>,
    pub api_name: String,
}

/// One crate that the binding generator made bindings for, with what it recorded of it.
pub struct Crate<M> {
    pub name: String,
    pub meta: M,
}

} // verus!
