use vstd::prelude::*;

use crate::handle::{base, LuaRef, RefError, RefView, Root};
use crate::host::{access_error, apply_error, resolve, with_leaf, Host, HostModel};
use crate::value::{leaf_at, type_of, Accessor, Reflected};

verus! {

/// Where a wrapped value lives.
enum Stored {
    /// In the host, under a validity token that this wrapper alone owns.
    Owned { token: usize },
    /// Elsewhere, reached through a live reference.
    Ref { handle: LuaRef },
}

/// A value of one host type exposed to scripts: either owned here, in the host under
/// a validity token, or a live reference into data that lives elsewhere. The type
/// identifier stands for the host type that the wrapper is made for.
pub struct LuaWrapper {
    stored: Stored,
    ty: u64,
}

/// The reference through which a wrapper reaches its value: for an owned value, a
/// derived root that observes its token.
pub closed spec fn handle_of(w: LuaWrapper) -> RefView {
    match w.stored {
        Stored::Owned { token } => RefView {
            root: Root::Derived { parent: Box::new(Root::Owned { token }) },
            path: Seq::empty(),
        },
        Stored::Ref { handle } => handle@,
    }
}

/// The validity token of an owned value; `None` for a reference.
pub closed spec fn owned_token(w: LuaWrapper) -> Option<usize> {
    match w.stored {
        Stored::Owned { token } => Some(token),
        Stored::Ref { .. } => None,
    }
}

/// The type identifier of the host type that the wrapper is made for.
pub closed spec fn wrapped_type(w: LuaWrapper) -> u64 {
    w.ty
}

/// Whether a borrow holds the token of the value that `w` owns.
pub open spec fn borrowed(w: LuaWrapper, s: HostModel) -> bool {
    match owned_token(w) {
        Some(t) => t < s.holds.len() && s.holds[t as int] > 0,
        None => false,
    }
}

/// Whether the value that `w` reaches, if it can be found, is of the wrapper's type.
pub open spec fn well_typed(w: LuaWrapper, s: HostModel) -> bool {
    match resolve(s, handle_of(w)) {
        Some(v) => type_of(v) == wrapped_type(w),
        None => true,
    }
}

/// The handle of an owned value is rooted at that value's token.
pub proof fn lemma_owned_handle_base(token: usize)
    ensures
        base(Root::Derived { parent: Box::new(Root::Owned { token }) }) == (Root::Owned { token }),
{
    assert(base(Root::Owned { token }) == (Root::Owned { token }));
}

impl LuaWrapper {
    /// Wraps a freshly made value; the host keeps it under a new token that no borrow
    /// holds.
    pub fn new(host: &mut Host, b: Reflected) -> (r: Self)
        ensures
            owned_token(r) is Some,
            owned_token(r)->Some_0 as int == old(host)@.cells.len(),
            handle_of(r) == (RefView {
                root: Root::Derived {
                    parent: Box::new(Root::Owned { token: owned_token(r)->Some_0 }),
                },
                path: Seq::empty(),
            }),
            wrapped_type(r) == type_of(b@),
            final(host)@ == (HostModel {
                cells: old(host)@.cells.push(Some(b@)),
                holds: old(host)@.holds.push(0),
                ..old(host)@
            }),
            final(host)@.cells.len() == final(host)@.holds.len(),
            !borrowed(r, final(host)@),
            base(handle_of(r).root) == (Root::Owned { token: owned_token(r)->Some_0 }),
            resolve(final(host)@, handle_of(r)) == Some(b@),
            access_error(final(host)@, handle_of(r), false) is None,
            access_error(final(host)@, handle_of(r), true) is None,
            well_typed(r, final(host)@),
    {
        let ghost v = b@;
        let ty = b.type_id();
        let token = host.own(b);
        proof {
            lemma_owned_handle_base(token);
            assert(leaf_at(v, Seq::empty()) == Some(v));
        }
        LuaWrapper { stored: Stored::Owned { token }, ty }
    }

    /// Wraps a live reference to a value of the type `ty`.
    pub fn new_ref(b: &LuaRef, ty: u64) -> (r: Self)
        ensures
            owned_token(r) is None,
            handle_of(r) == b@,
            wrapped_type(r) == ty,
    {
        LuaWrapper { stored: Stored::Ref { handle: b.duplicate() }, ty }
    }

    /// Wraps a live reference to a value of the type `ty`.
    pub fn base_to_self(b: &LuaRef, ty: u64) -> (r: Self)
        ensures
            owned_token(r) is None,
            handle_of(r) == b@,
            wrapped_type(r) == ty,
    {
        LuaWrapper { stored: Stored::Ref { handle: b.duplicate() }, ty }
    }

    /// The reference through which this wrapper reaches its value.
    pub fn to_handle(&self) -> (r: LuaRef)
        ensures
            r@ == handle_of(*self),
    {
        match &self.stored {
            Stored::Owned { token } => {
                let r = LuaRef {
                    root: Root::Derived { parent: Box::new(Root::Owned { token: *token }) },
                    path: Vec::new(),
                };
                assert(r@.path =~= handle_of(*self).path);
                r
            },
            Stored::Ref { handle } => handle.duplicate(),
        }
    }

    /// Whether a borrow holds the token of the value that this wrapper owns; such a
    /// wrapper must not be destroyed.
    pub fn is_borrowed(&self, host: &Host) -> (r: bool)
        ensures
            r == borrowed(*self, host@),
    {
        match &self.stored {
            Stored::Owned { token } => host.is_held(*token),
            Stored::Ref { .. } => false,
        }
    }

    /// Whether the value that this wrapper reaches is of the wrapper's type. A wrapper
    /// paired with a value of another type is a fault of the bindings, which its owner
    /// treats as fatal.
    pub fn type_matches(&self, host: &Host) -> (r: bool)
        ensures
            r == well_typed(*self, host@),
    {
        match host.resolve(&self.to_handle()) {
            Some(v) => v.type_id() == self.ty,
            None => true,
        }
    }

    /// Hands a copy of the wrapped value to `accessor` and returns its result.
    pub fn val<G, F: FnOnce(Reflected) -> G>(&self, host: &Host, accessor: F) -> (r: Result<
        G,
        RefError,
    >)
        requires
            well_typed(*self, host@),
            forall|v: Reflected| accessor.requires((v,)),
        ensures
            access_error(host@, handle_of(*self), false) is Some ==> r == Err::<G, RefError>(
                access_error(host@, handle_of(*self), false)->Some_0,
            ),
            access_error(host@, handle_of(*self), false) is None ==> r is Ok && exists|v: Reflected|
                #[trigger] accessor.ensures((v,), r->Ok_0) && v@ == resolve(
                    host@,
                    handle_of(*self),
                )->Some_0,
    {
        host.read(&self.to_handle(), accessor)
    }

    /// Hands a copy of the wrapped value to `accessor` and stores the value it gives
    /// back; the type of the value may not change.
    pub fn val_mut<G, F: FnOnce(Reflected) -> (Reflected, G)>(
        &self,
        host: &mut Host,
        accessor: F,
    ) -> (r: Result<G, RefError>)
        requires
            well_typed(*self, old(host)@),
            forall|v: Reflected| accessor.requires((v,)),
        ensures
            access_error(old(host)@, handle_of(*self), true) is Some ==> r == Err::<G, RefError>(
                access_error(old(host)@, handle_of(*self), true)->Some_0,
            ) && final(host)@ == old(host)@,
            access_error(old(host)@, handle_of(*self), true) is None ==> exists|
                v: Reflected,
                nv: Reflected,
                g: G,
            |
                #[trigger] accessor.ensures((v,), (nv, g)) && v@ == resolve(
                    old(host)@,
                    handle_of(*self),
                )->Some_0 && if type_of(nv@) == type_of(v@) {
                    r == Ok::<G, RefError>(g) && final(host)@ == with_leaf(
                        old(host)@,
                        handle_of(*self),
                        nv@,
                    )
                } else {
                    r == Err::<G, RefError>(RefError::TypeMismatch) && final(host)@ == old(host)@
                },
    {
        host.write(&self.to_handle(), accessor)
    }

    /// A copy of the wrapped value. An owned value is copied without its token being
    /// taken.
    pub fn inner(&self, host: &Host) -> (r: Result<Reflected, RefError>)
        requires
            well_typed(*self, host@),
        ensures
            access_error(host@, handle_of(*self), false) is Some ==> r == Err::<Reflected, RefError>(
                access_error(host@, handle_of(*self), false)->Some_0,
            ),
            access_error(host@, handle_of(*self), false) is None ==> r is Ok && r->Ok_0@ == resolve(
                host@,
                handle_of(*self),
            )->Some_0,
    {
        let h = self.to_handle();
        match host.resolve(&h) {
            None => Err(RefError::StaleRoot),
            Some(v) => {
                match &self.stored {
                    Stored::Owned { token } => {
                        proof {
                            lemma_owned_handle_base(*token);
                        }
                        Ok(v.duplicate())
                    },
                    Stored::Ref { handle } => host.read(handle, |x: Reflected| -> (y: Reflected)
                        ensures
                            y == x,
                        { x }),
                }
            },
        }
    }

    /// Copies the wrapped value onto the target of `b`.
    pub fn apply_self_to_base(&self, host: &mut Host, b: &LuaRef) -> (r: Result<(), RefError>)
        requires
            well_typed(*self, old(host)@),
        ensures
            apply_error(old(host)@, b@, handle_of(*self)) is Some ==> r == Err::<(), RefError>(
                apply_error(old(host)@, b@, handle_of(*self))->Some_0,
            ) && final(host)@ == old(host)@,
            apply_error(old(host)@, b@, handle_of(*self)) is None ==> r is Ok && final(host)@
                == with_leaf(old(host)@, b@, resolve(old(host)@, handle_of(*self))->Some_0),
    {
        host.apply(b, &self.to_handle())
    }

    /// Destroys the wrapper, and releases the value it owns. An owned value must not be
    /// destroyed while a borrow still holds its token: a reference would then outlive
    /// its target, so the owner checks `is_borrowed` first and treats a held token as
    /// fatal.
    pub fn destroy(self, host: &mut Host) -> (r: Result<(), RefError>)
        requires
            !borrowed(self, old(host)@),
        ensures
            owned_token(self) is None ==> r is Ok && final(host)@ == old(host)@,
            owned_token(self) is Some ==> {
                let t = owned_token(self)->Some_0 as int;
                let s0 = old(host)@;
                let s1 = final(host)@;
                &&& t >= s0.cells.len() || s0.cells[t] is None ==> r == Err::<(), RefError>(
                    RefError::StaleRoot,
                ) && s1 == s0
                &&& t < s0.cells.len() && s0.cells[t] is Some ==> r is Ok && s1 == (HostModel {
                    cells: s0.cells.update(t, None),
                    ..s0
                })
            },
    {
        match self.stored {
            Stored::Owned { token } => host.destroy_owned(token),
            Stored::Ref { .. } => Ok(()),
        }
    }
}

/// A component of an entity, reached through the store.
pub struct LuaComponent {
    pub comp: LuaRef,
}

impl LuaComponent {
    /// The reference to the field `field` of the component.
    pub fn index(&self, field: String) -> (r: LuaRef)
        ensures
            r@.root == self.comp@.root,
            r@.path == self.comp@.path.push(crate::value::Step::Field(field@)),
    {
        self.comp.project(Accessor::Field(field))
    }

    /// Copies the value of `value` onto the field `field` of the component.
    pub fn new_index(&self, host: &mut Host, field: String, value: &LuaWrapper) -> (r: Result<
        (),
        RefError,
    >)
        requires
            well_typed(*value, old(host)@),
        ensures
            ({
                let dst = RefView {
                    root: self.comp@.root,
                    path: self.comp@.path.push(crate::value::Step::Field(field@)),
                };
                let s0 = old(host)@;
                let s1 = final(host)@;
                &&& apply_error(s0, dst, handle_of(*value)) is Some ==> r == Err::<(), RefError>(
                    apply_error(s0, dst, handle_of(*value))->Some_0,
                ) && s1 == s0
                &&& apply_error(s0, dst, handle_of(*value)) is None ==> r is Ok && s1 == with_leaf(
                    s0,
                    dst,
                    resolve(s0, handle_of(*value))->Some_0,
                )
            }),
    {
        let dst = self.index(field);
        value.apply_self_to_base(host, &dst)
    }
}

/// A resource of the host, reached through the store.
pub struct LuaResource {
    pub res: LuaRef,
}

} // verus!
