use vstd::prelude::*;

use crate::handle::{base, lemma_base_not_derived, project_view, RefError, RefView, Root};
use crate::host::{
    access_error, after_borrow, apply_error, borrow_error, may_read, may_write, resolve,
    root_value, with_leaf, AccessMode, HostModel,
};
use crate::value::{
    diverge_at, disjoint_paths, lemma_disjoint_set, lemma_set_then_leaf, set_at, type_of, Step,
    Value,
};

verus! {

/// Where the target of `h` is written, the root of `h` then holds the root's value
/// with that target replaced.
proof fn lemma_root_after_write(s: HostModel, h: RefView, new: Value)
    requires
        root_value(s, h.root) is Some,
    ensures
        root_value(with_leaf(s, h, new), h.root) == Some(
            set_at(root_value(s, h.root)->Some_0, h.path, new),
        ),
{
    lemma_base_not_derived(h.root);
}

/// A write through one reference leaves every reference anchored elsewhere untouched.
pub proof fn law_write_leaves_other_roots(s: HostModel, dst: RefView, h: RefView, new: Value)
    requires
        root_value(s, dst.root) is Some,
        base(dst.root) != base(h.root),
    ensures
        resolve(with_leaf(s, dst, new), h) == resolve(s, h),
{
    lemma_base_not_derived(dst.root);
    lemma_base_not_derived(h.root);
}

/// Two references with the same root whose paths part ways at some step reach parts
/// that do not overlap: a write through the second leaves what the first reads
/// untouched.
pub proof fn law_disjoint_paths_do_not_interfere(
    s: HostModel,
    h1: RefView,
    h2: RefView,
    new: Value,
)
    requires
        h1.root == h2.root,
        root_value(s, h1.root) is Some,
        disjoint_paths(root_value(s, h1.root)->Some_0, h1.path, h2.path),
    ensures
        resolve(with_leaf(s, h2, new), h1) == resolve(s, h1),
{
    let v = root_value(s, h1.root)->Some_0;
    let k = choose|k: int| diverge_at(v, h1.path, h2.path, k);
    lemma_disjoint_set(v, h1.path, h2.path, new, k);
    lemma_root_after_write(s, h2, new);
}

/// On an owned root, a held read borrow through one reference does not keep a write
/// through another reference with the same root from going ahead: the token is taken
/// in one shared mode, and only tells that a borrow is alive.
pub proof fn law_owned_root_borrows_share(s: HostModel, h1: RefView, h2: RefView)
    requires
        h1.root == h2.root,
        base(h1.root) is Owned,
        borrow_error(s, h1, AccessMode::Read) is None,
        resolve(s, h2) is Some,
    ensures
        access_error(after_borrow(s, h1.root, AccessMode::Read), h2, true) is None,
        resolve(after_borrow(s, h1.root, AccessMode::Read), h2) == resolve(s, h2),
{
}

/// On a store root the lock is taken for the whole root, not per path: while a read
/// borrow is held through one reference, a write through another reference with the
/// same root is refused even where the two paths do not overlap, and reads still go
/// ahead.
pub proof fn law_store_root_borrows_serialize(s: HostModel, h1: RefView, h2: RefView)
    requires
        h1.root == h2.root,
        base(h1.root) is StoreSlot,
        borrow_error(s, h1, AccessMode::Read) is None,
        resolve(s, h2) is Some,
    ensures
        access_error(after_borrow(s, h1.root, AccessMode::Read), h2, true) == Some(
            RefError::Contended,
        ),
        access_error(after_borrow(s, h1.root, AccessMode::Read), h2, false) is None,
{
}

/// A reference projected from a store-rooted reference, whose slot is removed before
/// the access, fails every access with `StaleRoot`.
pub proof fn law_projection_onto_removed_slot_is_stale(
    s: HostModel,
    h: RefView,
    a: Step,
    ty: u64,
    entity: u64,
)
    requires
        base(h.root) == (Root::StoreSlot { ty, entity }),
    ensures
        ({
            let s2 = HostModel { store: s.store.remove((ty, entity)), ..s };
            let p = project_view(h, a);
            &&& access_error(s2, p, false) == Some(RefError::StaleRoot)
            &&& access_error(s2, p, true) == Some(RefError::StaleRoot)
            &&& borrow_error(s2, p, AccessMode::Read) == Some(RefError::StaleRoot)
            &&& borrow_error(s2, p, AccessMode::Write) == Some(RefError::StaleRoot)
        }),
{
}

/// After a successful copy from `src` onto `dst`, reading `dst` gives what reading
/// `src` gave at the time of the copy.
pub proof fn law_apply_then_read(s: HostModel, dst: RefView, src: RefView)
    requires
        apply_error(s, dst, src) is None,
    ensures
        resolve(with_leaf(s, dst, resolve(s, src)->Some_0), dst) == resolve(s, src),
{
    let new = resolve(s, src)->Some_0;
    lemma_root_after_write(s, dst, new);
    lemma_set_then_leaf(root_value(s, dst.root)->Some_0, dst.path, new);
}

/// Through two references with the same root and disjoint paths, where a write is
/// not refused by the lock, a read through the first and a write through the second
/// both go ahead, in either order, and the write leaves what the first reads untouched.
pub proof fn law_disjoint_read_and_write_both_succeed(
    s: HostModel,
    h1: RefView,
    h2: RefView,
    new: Value,
)
    requires
        h1.root == h2.root,
        resolve(s, h1) is Some,
        resolve(s, h2) is Some,
        disjoint_paths(root_value(s, h1.root)->Some_0, h1.path, h2.path),
        may_write(s, h2.root),
    ensures
        access_error(s, h1, false) is None,
        access_error(s, h2, true) is None,
        access_error(with_leaf(s, h2, new), h1, false) is None,
        resolve(with_leaf(s, h2, new), h1) == resolve(s, h1),
{
    law_disjoint_paths_do_not_interfere(s, h1, h2, new);
    lemma_base_not_derived(h2.root);
}

/// A copy onto a target of the source's type, where neither side is stale and the lock
/// lets the source be read and the destination be written, succeeds; the destination
/// then reads the source's value.
pub proof fn law_apply_succeeds(s: HostModel, dst: RefView, src: RefView)
    requires
        resolve(s, dst) is Some,
        resolve(s, src) is Some,
        type_of(resolve(s, dst)->Some_0) == type_of(resolve(s, src)->Some_0),
        may_write(s, dst.root),
        may_read(s, src.root),
    ensures
        apply_error(s, dst, src) is None,
        resolve(with_leaf(s, dst, resolve(s, src)->Some_0), dst) == resolve(s, src),
{
    law_apply_then_read(s, dst, src);
}

/// A copy is no alias: after a copy from `src` onto `dst` anchored at another root, a
/// later write through `src` leaves the copied value at `dst` as it was.
pub proof fn law_copy_is_not_an_alias(s: HostModel, dst: RefView, src: RefView, w: Value)
    requires
        apply_error(s, dst, src) is None,
        base(dst.root) != base(src.root),
    ensures
        ({
            let v = resolve(s, src)->Some_0;
            let s1 = with_leaf(s, dst, v);
            resolve(with_leaf(s1, src, w), dst) == Some(v)
        }),
{
    let v = resolve(s, src)->Some_0;
    let s1 = with_leaf(s, dst, v);
    law_apply_then_read(s, dst, src);
    lemma_base_not_derived(dst.root);
    lemma_base_not_derived(src.root);
    assert(root_value(s1, src.root) == root_value(s, src.root));
    law_write_leaves_other_roots(s1, src, dst, w);
}

} // verus!
