use vstd::prelude::*;

use crate::handle::{base, LuaRef, RefError, RefView, Root};
use crate::value::{leaf_at, set_at, steps, type_of, Reflected, Value};

verus! {

/// An owned value together with its validity token: the number of borrows that
/// currently hold the token. The value is gone once its owner has been destroyed.
struct Cell {
    value: Option<Reflected>,
    holds: u64,
}

/// The value that the shared store holds for one (type, entity) key; `None` once
/// it has been removed.
struct StoreEntry {
    ty: u64,
    entity: u64,
    value: Option<Reflected>,
}

/// The host side of the bridge: the values owned by wrappers, each with its validity
/// token, and the shared store with its reader/writer lock.
pub struct Host {
    cells: Vec<Cell>,
    entries: Vec<StoreEntry>,
    readers: u64,
    writer: bool,
}

/// Whether a borrow reads or writes through its reference.
#[derive(Debug, Clone, Copy, PartialEq, Eq, Structural)]
pub enum AccessMode {
    Read,
    Write,
}

/// A held borrow: the root whose lock it holds, and in which mode. Only
/// `Host::borrow` makes one.
pub struct Borrow {
    anchor: Root,
    mode: AccessMode,
}

impl Borrow {
    /// The root whose lock the borrow holds.
    pub closed spec fn anchor(self) -> Root {
        self.anchor
    }

    /// The mode in which the borrow holds its root.
    pub closed spec fn mode(self) -> AccessMode {
        self.mode
    }
}

/// The host as a mathematical object.
pub struct HostModel {
    /// The owned values by token; `None` for a value whose owner was destroyed.
    pub cells: Seq<Option<Value>>,
    /// For each token, how many borrows hold it.
    pub holds: Seq<nat>,
    /// The shared store, by (type identifier, entity identifier).
    pub store: Map<(u64, u64), Value>,
    /// How many read borrows hold the store.
    pub readers: nat,
    /// Whether a write borrow holds the store.
    pub writer: bool,
}

spec fn entry_key(e: StoreEntry) -> (u64, u64) {
    (e.ty, e.entity)
}

/// The position of the first of the first `k` entries with key `key`.
spec fn find_entry(es: Seq<StoreEntry>, key: (u64, u64), k: nat) -> Option<int>
    decreases k,
{
    if k == 0 || k > es.len() {
        None
    } else {
        match find_entry(es, key, (k - 1) as nat) {
            Some(i) => Some(i),
            None => if entry_key(es[k - 1]) == key {
                Some(k - 1)
            } else {
                None
            },
        }
    }
}

spec fn slot_of(es: Seq<StoreEntry>, key: (u64, u64)) -> Option<Value> {
    match find_entry(es, key, es.len()) {
        Some(i) => match es[i].value {
            Some(v) => Some(v@),
            None => None,
        },
        None => None,
    }
}

spec fn keys_agree(es1: Seq<StoreEntry>, es2: Seq<StoreEntry>, k: nat) -> bool {
    &&& k <= es1.len()
    &&& k <= es2.len()
    &&& forall|i: int| 0 <= i < k ==> #[trigger] entry_key(es1[i]) == entry_key(es2[i])
}

proof fn lemma_find_keys(es1: Seq<StoreEntry>, es2: Seq<StoreEntry>, key: (u64, u64), k: nat)
    requires
        keys_agree(es1, es2, k),
    ensures
        find_entry(es1, key, k) == find_entry(es2, key, k),
    decreases k,
{
    if k > 0 {
        lemma_find_keys(es1, es2, key, (k - 1) as nat);
        assert(entry_key(es1[k - 1]) == entry_key(es2[k - 1]));
    }
}

proof fn lemma_find_hit(es: Seq<StoreEntry>, key: (u64, u64), k: nat)
    requires
        find_entry(es, key, k) is Some,
    ensures
        0 <= find_entry(es, key, k)->Some_0 < k,
        k <= es.len(),
        entry_key(es[find_entry(es, key, k)->Some_0]) == key,
    decreases k,
{
    if k > 0 && find_entry(es, key, (k - 1) as nat) is Some {
        lemma_find_hit(es, key, (k - 1) as nat);
    }
}

proof fn lemma_find_stable(es: Seq<StoreEntry>, key: (u64, u64), k: nat, m: nat)
    requires
        k <= m <= es.len(),
        find_entry(es, key, k) is Some,
    ensures
        find_entry(es, key, m) == find_entry(es, key, k),
    decreases m - k,
{
    if m > k {
        lemma_find_stable(es, key, k, (m - 1) as nat);
    }
}

impl View for Host {
    type V = HostModel;

    closed spec fn view(&self) -> HostModel {
        HostModel {
            cells: self.cells@.map_values(
                |c: Cell|
                    match c.value {
                        Some(v) => Some(v@),
                        None => None,
                    },
            ),
            holds: self.cells@.map_values(|c: Cell| c.holds as nat),
            store: Map::new(
                |k: (u64, u64)| slot_of(self.entries@, k) is Some,
                |k: (u64, u64)| slot_of(self.entries@, k)->Some_0,
            ),
            readers: self.readers as nat,
            writer: self.writer,
        }
    }
}

/// The value at the root of a reference, if it can still be located.
pub open spec fn root_value(s: HostModel, r: Root) -> Option<Value> {
    match base(r) {
        Root::Owned { token } => if token < s.cells.len() {
            s.cells[token as int]
        } else {
            None
        },
        Root::StoreSlot { ty, entity } => if s.store.contains_key((ty, entity)) {
            Some(s.store[(ty, entity)])
        } else {
            None
        },
        Root::Derived { .. } => None,
    }
}

/// The target of a reference, if it can still be located.
pub open spec fn resolve(s: HostModel, h: RefView) -> Option<Value> {
    match root_value(s, h.root) {
        Some(v) => leaf_at(v, h.path),
        None => None,
    }
}

/// Whether the root is locked through the store's lock rather than a validity token.
pub open spec fn on_store(r: Root) -> bool {
    base(r) is StoreSlot
}

/// A read through `r` needs the store's read lock when `r` is on the store; the
/// validity token of an owned value never refuses.
pub open spec fn may_read(s: HostModel, r: Root) -> bool {
    on_store(r) ==> !s.writer
}

/// A write through `r` needs the store's write lock when `r` is on the store; the
/// validity token of an owned value is taken in the same shared mode as for a read.
pub open spec fn may_write(s: HostModel, r: Root) -> bool {
    on_store(r) ==> !s.writer && s.readers == 0
}

/// Why an access through `h` fails, if it does.
pub open spec fn access_error(s: HostModel, h: RefView, write: bool) -> Option<RefError> {
    if resolve(s, h) is None {
        Some(RefError::StaleRoot)
    } else if !(if write {
        may_write(s, h.root)
    } else {
        may_read(s, h.root)
    }) {
        Some(RefError::Contended)
    } else {
        None
    }
}

/// The host after the target of `h` was replaced by `new`.
pub open spec fn with_leaf(s: HostModel, h: RefView, new: Value) -> HostModel {
    match base(h.root) {
        Root::Owned { token } => HostModel {
            cells: s.cells.update(
                token as int,
                Some(set_at(s.cells[token as int]->Some_0, h.path, new)),
            ),
            ..s
        },
        Root::StoreSlot { ty, entity } => HostModel {
            store: s.store.insert((ty, entity), set_at(s.store[(ty, entity)], h.path, new)),
            ..s
        },
        Root::Derived { .. } => s,
    }
}

/// Why copying the target of `src` onto the target of `dst` fails, if it does.
pub open spec fn apply_error(s: HostModel, dst: RefView, src: RefView) -> Option<RefError> {
    if resolve(s, dst) is None || resolve(s, src) is None {
        Some(RefError::StaleRoot)
    } else if !may_write(s, dst.root) || !may_read(s, src.root) {
        Some(RefError::Contended)
    } else if type_of(resolve(s, dst)->Some_0) != type_of(resolve(s, src)->Some_0) {
        Some(RefError::TypeMismatch)
    } else {
        None
    }
}

/// Whether the counter that a borrow through `r` would raise is at its limit.
pub open spec fn counter_full(s: HostModel, r: Root, mode: AccessMode) -> bool {
    match base(r) {
        Root::Owned { token } => s.holds[token as int] >= u64::MAX,
        Root::StoreSlot { .. } => mode is Read && s.readers >= u64::MAX,
        Root::Derived { .. } => false,
    }
}

/// Why a borrow through `h` in `mode` fails, if it does.
pub open spec fn borrow_error(s: HostModel, h: RefView, mode: AccessMode) -> Option<RefError> {
    match access_error(s, h, mode is Write) {
        Some(e) => Some(e),
        None => if counter_full(s, h.root, mode) {
            Some(RefError::Contended)
        } else {
            None
        },
    }
}

/// The host once a borrow through root `r` in `mode` is held: the validity token of
/// an owned value is held once more, whatever the mode; the store is held by one
/// more reader, or by the writer.
pub open spec fn after_borrow(s: HostModel, r: Root, mode: AccessMode) -> HostModel {
    match base(r) {
        Root::Owned { token } => HostModel {
            holds: s.holds.update(token as int, (s.holds[token as int] + 1) as nat),
            ..s
        },
        Root::StoreSlot { .. } => if mode is Read {
            HostModel { readers: s.readers + 1, ..s }
        } else {
            HostModel { writer: true, ..s }
        },
        Root::Derived { .. } => s,
    }
}

/// The host once the borrow `b` is given back.
pub open spec fn after_release(s: HostModel, b: Borrow) -> HostModel {
    match b.anchor() {
        Root::Owned { token } => if token < s.holds.len() && s.holds[token as int] > 0 {
            HostModel {
                holds: s.holds.update(token as int, (s.holds[token as int] - 1) as nat),
                ..s
            }
        } else {
            s
        },
        Root::StoreSlot { .. } => if b.mode() is Read {
            if s.readers > 0 {
                HostModel { readers: (s.readers - 1) as nat, ..s }
            } else {
                s
            }
        } else {
            HostModel { writer: false, ..s }
        },
        Root::Derived { .. } => s,
    }
}

impl Host {
    /// A host with no owned values and an empty, unlocked store.
    pub fn new() -> (r: Host)
        ensures
            r@.cells.len() == 0,
            r@.holds.len() == 0,
            r@.store == Map::<(u64, u64), Value>::empty(),
            r@.readers == 0,
            !r@.writer,
    {
        let r = Host { cells: Vec::new(), entries: Vec::new(), readers: 0, writer: false };
        assert(r@.store =~= Map::<(u64, u64), Value>::empty());
        r
    }

    fn find(&self, ty: u64, entity: u64) -> (r: Option<usize>)
        ensures
            r is Some <==> find_entry(self.entries@, (ty, entity), self.entries@.len()) is Some,
            r is Some ==> r->Some_0 as int == find_entry(
                self.entries@,
                (ty, entity),
                self.entries@.len(),
            )->Some_0,
    {
        let mut i: usize = 0;
        while i < self.entries.len()
            invariant
                i <= self.entries@.len(),
                find_entry(self.entries@, (ty, entity), i as nat) is None,
            decreases self.entries@.len() - i,
        {
            if self.entries[i].ty == ty && self.entries[i].entity == entity {
                proof {
                    assert(find_entry(self.entries@, (ty, entity), (i + 1) as nat) == Some(i as int));
                    lemma_find_stable(
                        self.entries@,
                        (ty, entity),
                        (i + 1) as nat,
                        self.entries@.len(),
                    );
                }
                return Some(i);
            }
            i = i + 1;
        }
        None
    }

    /// Puts `value` into the store under (`ty`, `entity`), in place of what was there.
    /// Refused while any borrow holds the store.
    pub fn insert_slot(&mut self, ty: u64, entity: u64, value: Reflected) -> (r: Result<(), RefError>)
        ensures
            old(self)@.readers > 0 || old(self)@.writer ==> r == Err::<(), RefError>(
                RefError::Contended,
            ) && final(self)@ == old(self)@,
            old(self)@.readers == 0 && !old(self)@.writer ==> r is Ok && final(self)@ == (
            HostModel { store: old(self)@.store.insert((ty, entity), value@), ..old(self)@ }),
    {
        if self.readers > 0 || self.writer {
            return Err(RefError::Contended);
        }
        let ghost es0 = self.entries@;
        let ghost v = value@;
        let ghost m0 = old(self)@.store;
        let ghost key = (ty, entity);
        match self.find(ty, entity) {
            Some(i) => {
                proof {
                    lemma_find_hit(es0, key, es0.len());
                }
                let _ = self.entries.remove(i);
                self.entries.insert(i, StoreEntry { ty, entity, value: Some(value) });
                proof {
                    let es1 = self.entries@;
                    assert(es1 =~= es0.update(i as int, es1[i as int]));
                    assert forall|k2: (u64, u64)| true implies find_entry(es1, k2, es1.len())
                        == find_entry(es0, k2, es0.len()) by {
                        assert(keys_agree(es1, es0, es0.len()));
                        lemma_find_keys(es1, es0, k2, es0.len());
                    }
                    assert forall|k2: (u64, u64)| #[trigger] slot_of(es1, k2) == if k2 == key {
                        Some(v)
                    } else {
                        slot_of(es0, k2)
                    } by {
                        if find_entry(es0, k2, es0.len()) is Some {
                            lemma_find_hit(es0, k2, es0.len());
                        }
                    }
                    assert(self@.store =~= m0.insert(key, v));
                }
            },
            None => {
                self.entries.push(StoreEntry { ty, entity, value: Some(value) });
                proof {
                    let es1 = self.entries@;
                    assert forall|k2: (u64, u64)| #[trigger] slot_of(es1, k2) == if k2 == key {
                        Some(v)
                    } else {
                        slot_of(es0, k2)
                    } by {
                        assert(keys_agree(es1, es0, es0.len()));
                        lemma_find_keys(es1, es0, k2, es0.len());
                        if find_entry(es0, k2, es0.len()) is Some {
                            lemma_find_hit(es0, k2, es0.len());
                        }
                    }
                    assert(self@.store =~= m0.insert(key, v));
                }
            },
        }
        assert(self@.cells =~= old(self)@.cells);
        assert(self@.holds =~= old(self)@.holds);
        Ok(())
    }

    /// Removes what the store holds under (`ty`, `entity`), if anything. Refused while
    /// any borrow holds the store.
    pub fn remove_slot(&mut self, ty: u64, entity: u64) -> (r: Result<(), RefError>)
        ensures
            old(self)@.readers > 0 || old(self)@.writer ==> r == Err::<(), RefError>(
                RefError::Contended,
            ) && final(self)@ == old(self)@,
            old(self)@.readers == 0 && !old(self)@.writer ==> r is Ok && final(self)@ == (
            HostModel { store: old(self)@.store.remove((ty, entity)), ..old(self)@ }),
    {
        if self.readers > 0 || self.writer {
            return Err(RefError::Contended);
        }
        let ghost es0 = self.entries@;
        let ghost m0 = old(self)@.store;
        let ghost key = (ty, entity);
        match self.find(ty, entity) {
            Some(i) => {
                proof {
                    lemma_find_hit(es0, key, es0.len());
                }
                let _ = self.entries.remove(i);
                self.entries.insert(i, StoreEntry { ty, entity, value: None });
                proof {
                    let es1 = self.entries@;
                    assert(es1 =~= es0.update(i as int, es1[i as int]));
                    assert forall|k2: (u64, u64)| #[trigger] slot_of(es1, k2) == if k2 == key {
                        None
                    } else {
                        slot_of(es0, k2)
                    } by {
                        assert(keys_agree(es1, es0, es0.len()));
                        lemma_find_keys(es1, es0, k2, es0.len());
                        if find_entry(es0, k2, es0.len()) is Some {
                            lemma_find_hit(es0, k2, es0.len());
                        }
                    }
                    assert(self@.store =~= m0.remove(key));
                }
            },
            None => {
                assert(self@.store =~= m0.remove(key));
            },
        }
        assert(self@.cells =~= old(self)@.cells);
        assert(self@.holds =~= old(self)@.holds);
        Ok(())
    }

    /// Every owned value has its validity token.
    pub proof fn lemma_tokens(&self)
        ensures
            self@.cells.len() == self@.holds.len(),
    {
    }

    /// Takes ownership of `value` and gives it a fresh, unheld validity token.
    pub(crate) fn own(&mut self, value: Reflected) -> (token: usize)
        ensures
            token as int == old(self)@.cells.len(),
            final(self)@.cells.len() == final(self)@.holds.len(),
            final(self)@.cells[token as int] == Some(value@),
            final(self)@.holds[token as int] == 0,
            final(self)@ == (HostModel {
                cells: old(self)@.cells.push(Some(value@)),
                holds: old(self)@.holds.push(0),
                ..old(self)@
            }),
    {
        let token = self.cells.len();
        let ghost v = value@;
        self.cells.push(Cell { value: Some(value), holds: 0 });
        assert(self@.cells[token as int] == Some(v));
        assert(self@.cells =~= old(self)@.cells.push(Some(value@)));
        assert(self@.holds =~= old(self)@.holds.push(0));
        token
    }

    /// Whether any borrow currently holds the validity token `token`.
    pub fn is_held(&self, token: usize) -> (r: bool)
        ensures
            r == (token < self@.holds.len() && self@.holds[token as int] > 0),
    {
        token < self.cells.len() && self.cells[token].holds > 0
    }

    /// Releases the value owned under `token`. A value must not be destroyed while a
    /// borrow still holds its token: a reference would then outlive its target, so the
    /// owner checks `is_held` first and treats a held token as fatal. Overlapping
    /// borrows of an owned value are only caught then, when the owner goes, and never
    /// when the second borrow is taken.
    pub(crate) fn destroy_owned(&mut self, token: usize) -> (r: Result<(), RefError>)
        requires
            !(token < old(self)@.holds.len() && old(self)@.holds[token as int] > 0),
        ensures
            token >= old(self)@.cells.len() || old(self)@.cells[token as int] is None ==> r
                == Err::<(), RefError>(RefError::StaleRoot) && final(self)@ == old(self)@,
            token < old(self)@.cells.len() && old(self)@.cells[token as int] is Some ==> r is Ok
                && final(self)@ == (HostModel {
                cells: old(self)@.cells.update(token as int, None),
                ..old(self)@
            }),
    {
        if token >= self.cells.len() {
            return Err(RefError::StaleRoot);
        }
        if self.cells[token].value.is_none() {
            return Err(RefError::StaleRoot);
        }
        let _ = self.cells.remove(token);
        self.cells.insert(token, Cell { value: None, holds: 0 });
        assert(self@.cells =~= old(self)@.cells.update(token as int, None));
        assert(self@.holds =~= old(self)@.holds);
        Ok(())
    }

    fn root_ref(&self, root: &Root) -> (r: Option<&Reflected>)
        ensures
            r is Some <==> root_value(self@, *root) is Some,
            r is Some ==> r->Some_0@ == root_value(self@, *root)->Some_0,
    {
        match root.base() {
            Root::Owned { token } => {
                if *token < self.cells.len() {
                    match &self.cells[*token].value {
                        Some(v) => Some(v),
                        None => None,
                    }
                } else {
                    None
                }
            },
            Root::StoreSlot { ty, entity } => {
                match self.find(*ty, *entity) {
                    Some(i) => {
                        proof {
                            lemma_find_hit(self.entries@, (*ty, *entity), self.entries@.len());
                        }
                        match &self.entries[i].value {
                            Some(v) => Some(v),
                            None => None,
                        }
                    },
                    None => None,
                }
            },
            Root::Derived { .. } => None,
        }
    }

    /// The target of `h`, found anew from its root and path.
    pub fn resolve(&self, h: &LuaRef) -> (r: Option<&Reflected>)
        ensures
            r is Some <==> resolve(self@, h@) is Some,
            r is Some ==> r->Some_0@ == resolve(self@, h@)->Some_0,
    {
        assert(steps(h.path@).skip(0) =~= h@.path);
        match self.root_ref(&h.root) {
            Some(v) => v.leaf(&h.path, 0),
            None => None,
        }
    }

    fn may_read(&self, root: &Root) -> (r: bool)
        ensures
            r == may_read(self@, *root),
    {
        match root.base() {
            Root::StoreSlot { .. } => !self.writer,
            _ => true,
        }
    }

    fn may_write(&self, root: &Root) -> (r: bool)
        ensures
            r == may_write(self@, *root),
    {
        match root.base() {
            Root::StoreSlot { .. } => !self.writer && self.readers == 0,
            _ => true,
        }
    }

    /// Replaces the target of `h` by `new`.
    fn set_leaf(&mut self, h: &LuaRef, new: Reflected)
        requires
            resolve(old(self)@, h@) is Some,
        ensures
            final(self)@ == with_leaf(old(self)@, h@, new@),
    {
        assert(steps(h.path@).skip(0) =~= h@.path);
        let ghost nv = new@;
        match h.root.base() {
            Root::Owned { token } => {
                let t = *token;
                let cell = self.cells.remove(t);
                match cell.value {
                    Some(v) => {
                        let v2 = v.replace_at(&h.path, 0, new);
                        self.cells.insert(t, Cell { value: Some(v2), holds: cell.holds });
                    },
                    None => {
                        self.cells.insert(t, cell);
                    },
                }
                assert(self@.cells =~= with_leaf(old(self)@, h@, nv).cells);
                assert(self@.holds =~= old(self)@.holds);
            },
            Root::StoreSlot { ty, entity } => {
                let ghost es0 = self.entries@;
                let ghost key = (*ty, *entity);
                let ghost m0 = old(self)@.store;
                let i = match self.find(*ty, *entity) {
                    Some(i) => i,
                    None => 0,
                };
                proof {
                    lemma_find_hit(es0, key, es0.len());
                }
                let e = self.entries.remove(i);
                match e.value {
                    Some(v) => {
                        let v2 = v.replace_at(&h.path, 0, new);
                        let ghost nv2 = v2@;
                        self.entries.insert(i, StoreEntry { ty: e.ty, entity: e.entity, value: Some(v2) });
                        proof {
                            let es1 = self.entries@;
                            assert(es1 =~= es0.update(i as int, es1[i as int]));
                            assert forall|k2: (u64, u64)| #[trigger] slot_of(es1, k2) == if k2 == key {
                                Some(nv2)
                            } else {
                                slot_of(es0, k2)
                            } by {
                                assert(keys_agree(es1, es0, es0.len()));
                                lemma_find_keys(es1, es0, k2, es0.len());
                                if find_entry(es0, k2, es0.len()) is Some {
                                    lemma_find_hit(es0, k2, es0.len());
                                }
                            }
                            assert(self@.store =~= with_leaf(old(self)@, h@, nv).store);
                        }
                    },
                    None => {
                        self.entries.insert(i, e);
                    },
                }
                assert(self@.cells =~= old(self)@.cells);
                assert(self@.holds =~= old(self)@.holds);
            },
            Root::Derived { .. } => {},
        }
    }

    /// Finds the target of `h` anew and hands a copy of it to `f`. The store's read
    /// lock is needed when `h` is on the store; nothing stays held afterwards.
    pub fn read<R, F: FnOnce(Reflected) -> R>(&self, h: &LuaRef, f: F) -> (r: Result<R, RefError>)
        requires
            forall|v: Reflected| f.requires((v,)),
        ensures
            access_error(self@, h@, false) is Some ==> r == Err::<R, RefError>(
                access_error(self@, h@, false)->Some_0,
            ),
            access_error(self@, h@, false) is None ==> r is Ok && exists|v: Reflected|
                #[trigger] f.ensures((v,), r->Ok_0) && v@ == resolve(self@, h@)->Some_0,
    {
        match self.resolve(h) {
            None => Err(RefError::StaleRoot),
            Some(leaf) => {
                if !self.may_read(&h.root) {
                    return Err(RefError::Contended);
                }
                let v = leaf.duplicate();
                let ghost gv = v;
                let out = f(v);
                let r: Result<R, RefError> = Ok(out);
                assert(f.ensures((gv,), r->Ok_0));
                r
            },
        }
    }

    /// Finds the target of `h` anew, hands a copy of it to `f`, and puts back the value
    /// that `f` returns with its result. The store's write lock is needed when `h` is
    /// on the store; an owned value's token is taken in the same mode as for a read.
    /// A value of another type than the target is refused with `TypeMismatch`.
    pub fn write<R, F: FnOnce(Reflected) -> (Reflected, R)>(&mut self, h: &LuaRef, f: F) -> (r:
        Result<R, RefError>)
        requires
            forall|v: Reflected| f.requires((v,)),
        ensures
            access_error(old(self)@, h@, true) is Some ==> r == Err::<R, RefError>(
                access_error(old(self)@, h@, true)->Some_0,
            ) && final(self)@ == old(self)@,
            access_error(old(self)@, h@, true) is None ==> exists|v: Reflected, nv: Reflected, g: R|
                #[trigger] f.ensures((v,), (nv, g)) && v@ == resolve(old(self)@, h@)->Some_0 && if type_of(
                    nv@,
                ) == type_of(v@) {
                    r == Ok::<R, RefError>(g) && final(self)@ == with_leaf(old(self)@, h@, nv@)
                } else {
                    r == Err::<R, RefError>(RefError::TypeMismatch) && final(self)@ == old(self)@
                },
    {
        let v = match self.resolve(h) {
            None => {
                return Err(RefError::StaleRoot);
            },
            Some(leaf) => leaf.duplicate(),
        };
        if !self.may_write(&h.root) {
            return Err(RefError::Contended);
        }
        let ghost gv = v;
        let ty = v.type_id();
        let (nv, g) = f(v);
        let ghost gnv = nv;
        let ghost gg = g;
        assert(f.ensures((gv,), (gnv, gg)));
        if nv.type_id() != ty {
            return Err(RefError::TypeMismatch);
        }
        self.set_leaf(h, nv);
        Ok(g)
    }

    /// Copies the target of `src` onto the target of `dst`. The source is read and
    /// let go before the destination is written, so the two may share the store.
    pub fn apply(&mut self, dst: &LuaRef, src: &LuaRef) -> (r: Result<(), RefError>)
        ensures
            apply_error(old(self)@, dst@, src@) is Some ==> r == Err::<(), RefError>(
                apply_error(old(self)@, dst@, src@)->Some_0,
            ) && final(self)@ == old(self)@,
            apply_error(old(self)@, dst@, src@) is None ==> r is Ok && final(self)@ == with_leaf(
                old(self)@,
                dst@,
                resolve(old(self)@, src@)->Some_0,
            ),
    {
        let dst_ty = match self.resolve(dst) {
            Some(v) => v.type_id(),
            None => {
                return Err(RefError::StaleRoot);
            },
        };
        let copy = match self.resolve(src) {
            Some(v) => v.duplicate(),
            None => {
                return Err(RefError::StaleRoot);
            },
        };
        if !self.may_write(&dst.root) || !self.may_read(&src.root) {
            return Err(RefError::Contended);
        }
        if copy.type_id() != dst_ty {
            return Err(RefError::TypeMismatch);
        }
        self.set_leaf(dst, copy);
        Ok(())
    }

    /// Takes a lasting borrow through `h`: the validity token of an owned root, in the
    /// same mode for reading and writing, or the store's lock in `mode`.
    pub fn borrow(&mut self, h: &LuaRef, mode: AccessMode) -> (r: Result<Borrow, RefError>)
        ensures
            borrow_error(old(self)@, h@, mode) is Some ==> r == Err::<Borrow, RefError>(
                borrow_error(old(self)@, h@, mode)->Some_0,
            ) && final(self)@ == old(self)@,
            borrow_error(old(self)@, h@, mode) is None ==> r is Ok && r->Ok_0.anchor() == base(h.root)
                && r->Ok_0.mode() == mode && final(self)@ == after_borrow(old(self)@, h.root, mode),
    {
        if self.resolve(h).is_none() {
            return Err(RefError::StaleRoot);
        }
        let allowed = match mode {
            AccessMode::Read => self.may_read(&h.root),
            AccessMode::Write => self.may_write(&h.root),
        };
        if !allowed {
            return Err(RefError::Contended);
        }
        let anchor = h.root.base();
        match anchor {
            Root::Owned { token } => {
                let t = *token;
                let cell = self.cells.remove(t);
                if cell.holds == u64::MAX {
                    self.cells.insert(t, cell);
                    assert(self.cells@ =~= old(self).cells@);
                    return Err(RefError::Contended);
                }
                self.cells.insert(t, Cell { value: cell.value, holds: cell.holds + 1 });
                assert(self@.cells =~= old(self)@.cells);
                assert(self@.holds =~= after_borrow(old(self)@, h.root, mode).holds);
            },
            Root::StoreSlot { .. } => {
                match mode {
                    AccessMode::Read => {
                        if self.readers == u64::MAX {
                            return Err(RefError::Contended);
                        }
                        self.readers = self.readers + 1;
                    },
                    AccessMode::Write => {
                        self.writer = true;
                    },
                }
            },
            Root::Derived { .. } => {},
        }
        Ok(Borrow { anchor: anchor.duplicate(), mode })
    }

    /// Gives back the borrow `b`.
    pub fn release(&mut self, b: Borrow)
        ensures
            final(self)@ == after_release(old(self)@, b),
    {
        match b.anchor {
            Root::Owned { token } => {
                if token < self.cells.len() && self.cells[token].holds > 0 {
                    let cell = self.cells.remove(token);
                    self.cells.insert(token, Cell { value: cell.value, holds: cell.holds - 1 });
                    assert(self@.cells =~= old(self)@.cells);
                    assert(self@.holds =~= after_release(old(self)@, b).holds);
                }
            },
            Root::StoreSlot { .. } => {
                match b.mode {
                    AccessMode::Read => {
                        if self.readers > 0 {
                            self.readers = self.readers - 1;
                        }
                    },
                    AccessMode::Write => {
                        self.writer = false;
                    },
                }
            },
            Root::Derived { .. } => {},
        }
    }
}

} // verus!
