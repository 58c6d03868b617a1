use vstd::prelude::*;

use crate::value::{Accessor, Step, steps};

verus! {

/// Where a reference is anchored. A root never holds the address of its target,
/// only what is needed to find the target again on each access.
pub enum Root {
    /// A value kept alive by an owning wrapper, observed through its validity token.
    Owned { token: usize },
    /// The value of type `ty` that the shared store holds for `entity`.
    StoreSlot { ty: u64, entity: u64 },
    /// A root taken over from another reference; it resolves and locks as its parent does.
    Derived { parent: Box<Root> },
}

/// The ways an access through a reference can fail.
#[derive(Debug, Clone, Copy, PartialEq, Eq, Structural)]
pub enum RefError {
    /// The target can no longer be located.
    StaleRoot,
    /// A value was to be copied onto a value of another type.
    TypeMismatch,
    /// The store is held in a mode that excludes the access asked for.
    Contended,
}

/// A reference into host data: a root and the path from the root to the target.
pub struct LuaRef {
    pub root: Root,
    pub path: Vec<Accessor>,
}

/// A reference as a mathematical object.
pub struct RefView {
    pub root: Root,
    pub path: Seq<Step>,
}

impl View for LuaRef {
    type V = RefView;

    open spec fn view(&self) -> RefView {
        RefView { root: self.root, path: steps(self.path@) }
    }
}

/// The root that a chain of derived roots leads to.
pub open spec fn base(r: Root) -> Root
    decreases r,
{
    match r {
        Root::Derived { parent } => base(*parent),
        _ => r,
    }
}

/// The reference with one more step at the end of its path.
pub open spec fn project_view(h: RefView, s: Step) -> RefView {
    RefView { root: h.root, path: h.path.push(s) }
}

impl Root {
    /// The root that this chain of derived roots leads to.
    pub fn base(&self) -> (r: &Root)
        ensures
            *r == base(*self),
            !(r is Derived),
        decreases self,
    {
        match self {
            Root::Derived { parent } => parent.base(),
            _ => self,
        }
    }

    pub fn duplicate(&self) -> (r: Root)
        ensures
            r == *self,
        decreases self,
    {
        match self {
            Root::Owned { token } => Root::Owned { token: *token },
            Root::StoreSlot { ty, entity } => Root::StoreSlot { ty: *ty, entity: *entity },
            Root::Derived { parent } => Root::Derived { parent: Box::new(parent.duplicate()) },
        }
    }
}

pub proof fn lemma_base_not_derived(r: Root)
    ensures
        !(base(r) is Derived),
    decreases r,
{
    if let Root::Derived { parent } = r {
        lemma_base_not_derived(*parent);
    }
}

impl LuaRef {
    /// A reference with the same root and the same path.
    pub fn duplicate(&self) -> (r: LuaRef)
        ensures
            r@ == self@,
    {
        let mut path: Vec<Accessor> = Vec::new();
        let mut i: usize = 0;
        while i < self.path.len()
            invariant
                i <= self.path@.len(),
                path@.len() == i,
                forall|j: int| 0 <= j < i ==> (#[trigger] path@[j])@ == self.path@[j]@,
            decreases self.path@.len() - i,
        {
            path.push(self.path[i].duplicate());
            i = i + 1;
        }
        let r = LuaRef { root: self.root.duplicate(), path };
        assert(steps(r.path@) =~= steps(self.path@));
        r
    }

    /// The reference to the part that `a` designates in this reference's target.
    /// Nothing is resolved here: a path that leads nowhere fails when it is accessed.
    pub fn project(&self, a: Accessor) -> (r: LuaRef)
        ensures
            r@ == project_view(self@, a@),
    {
        let mut r = self.duplicate();
        r.path.push(a);
        assert(steps(r.path@) =~= self@.path.push(a@));
        r
    }
}

} // verus!
