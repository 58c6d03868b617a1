use script_bridge::codegen::{BevyAnalyzerCallbacks, Collect, Crate};
use script_bridge::handle::{LuaRef, RefError, Root};
use script_bridge::host::{AccessMode, Host};
use script_bridge::value::{Accessor, Reflected};
use script_bridge::wrapper::{LuaComponent, LuaResource, LuaWrapper};

const INT: u64 = 1;
const VEC3: u64 = 2;
const MAT3: u64 = 3;
const COMPONENT: u64 = 4;
const OTHER: u64 = 5;

fn num(v: i64) -> Reflected {
    Reflected::Scalar { ty: INT, val: v }
}

fn vec3(x: i64, y: i64, z: i64) -> Reflected {
    Reflected::Composite {
        ty: VEC3,
        names: vec!["x".to_string(), "y".to_string(), "z".to_string()],
        parts: vec![num(x), num(y), num(z)],
    }
}

fn mat3(a: Reflected, b: Reflected, c: Reflected) -> Reflected {
    Reflected::Composite {
        ty: MAT3,
        names: vec!["x_axis".to_string(), "y_axis".to_string(), "z_axis".to_string()],
        parts: vec![a, b, c],
    }
}

fn component(m: Reflected) -> Reflected {
    Reflected::Composite { ty: COMPONENT, names: vec!["mat3".to_string()], parts: vec![m] }
}

fn sample_mat() -> Reflected {
    mat3(vec3(1, 2, 3), vec3(4, 5, 6), vec3(7, 8, 9))
}

fn scalar(r: &Reflected) -> i64 {
    match r {
        Reflected::Scalar { val, .. } => *val,
        Reflected::Composite { .. } => panic!("not a scalar"),
    }
}

fn triple(r: &Reflected) -> (i64, i64, i64) {
    match r {
        Reflected::Composite { parts, .. } => (scalar(&parts[0]), scalar(&parts[1]), scalar(&parts[2])),
        Reflected::Scalar { .. } => panic!("not a composite"),
    }
}

fn store_ref(ty: u64, entity: u64) -> LuaRef {
    LuaRef { root: Root::StoreSlot { ty, entity }, path: Vec::new() }
}

fn double_all(v: Reflected) -> (Reflected, ()) {
    match v {
        Reflected::Composite { ty, names, parts } => {
            let parts = parts.iter().map(|p| num(scalar(p) * 2)).collect();
            (Reflected::Composite { ty, names, parts }, ())
        }
        other => (other, ()),
    }
}

#[test]
#[should_panic]
fn miri_test_components() {
    let mut host = Host::new();
    let entity: u64 = 0;
    host.insert_slot(COMPONENT, entity, component(sample_mat())).unwrap();

    let component_ref1 = store_ref(COMPONENT, entity);
    let component_ref2 = component_ref1.duplicate();

    let outer = host.borrow(&component_ref1, AccessMode::Read).unwrap();
    host.read(&component_ref2, |r2| r2.type_id()).unwrap();
    host.release(outer);

    host.write(&component_ref1, double_all_component).unwrap();
    host.write(&component_ref2, double_all_component).unwrap();

    // a read through the second reference while the first holds the store for writing
    let outer = host.borrow(&component_ref1, AccessMode::Write).unwrap();
    host.read(&component_ref2, |r2| r2.type_id()).unwrap();
    host.release(outer);
}

fn double_all_component(v: Reflected) -> (Reflected, ()) {
    match v {
        Reflected::Composite { ty, names, parts } => {
            let m = match &parts[0] {
                Reflected::Composite { ty: mt, names: mn, parts: cols } => Reflected::Composite {
                    ty: *mt,
                    names: mn.clone(),
                    parts: cols.iter().map(|c| double_all(c.duplicate()).0).collect(),
                },
                s => s.duplicate(),
            };
            (Reflected::Composite { ty, names, parts: vec![m] }, ())
        }
        other => (other, ()),
    }
}

#[test]
#[should_panic]
fn miri_test_owned() {
    let mut host = Host::new();
    let mat = LuaWrapper::new(&mut host, sample_mat());

    let ref1 = mat.to_handle().project(Accessor::Index(0));
    let ref2 = ref1.duplicate();

    let outer = host.borrow(&ref1, AccessMode::Read).unwrap();
    let sum = host.read(&ref2, |r2| triple(&r2)).unwrap();
    assert_eq!(sum, (1, 2, 3));
    host.release(outer);

    host.write(&ref1, double_all).unwrap();
    host.write(&ref2, double_all).unwrap();

    mat.destroy(&mut host).unwrap();

    // the owner is gone: the reference is stale
    host.write(&ref1, double_all).unwrap();
}

#[test]
fn destroying_unborrowed_owned_succeeds() {
    let mut host = Host::new();
    let w = LuaWrapper::new(&mut host, vec3(1, 2, 3));
    let h = w.to_handle();
    assert_eq!(host.read(&h, |v| triple(&v)), Ok((1, 2, 3)));
    assert_eq!(w.destroy(&mut host), Ok(()));
    assert_eq!(host.read(&h, |v| triple(&v)), Err(RefError::StaleRoot));
}

#[test]
fn borrowed_owner_is_reported() {
    let mut host = Host::new();
    let w = LuaWrapper::new(&mut host, vec3(1, 2, 3));
    let h = w.to_handle().project(Accessor::Field("y".to_string()));
    let b = host.borrow(&h, AccessMode::Read).unwrap();
    assert!(w.is_borrowed(&host));
    assert!(host.is_held(0));
    host.release(b);
    assert!(!w.is_borrowed(&host));
    assert!(!host.is_held(0));
    assert_eq!(w.destroy(&mut host), Ok(()));
}

#[test]
fn owned_root_read_borrow_admits_disjoint_write() {
    let mut host = Host::new();
    let m = LuaWrapper::new(&mut host, sample_mat());
    let h = m.to_handle();
    let h1 = h.project(Accessor::Index(0));
    let h2 = h.project(Accessor::Field("y_axis".to_string()));
    let b = host.borrow(&h1, AccessMode::Read).unwrap();
    assert_eq!(host.write(&h2, double_all), Ok(()));
    assert_eq!(host.read(&h1, |v| triple(&v)), Ok((1, 2, 3)));
    assert_eq!(host.read(&h2, |v| triple(&v)), Ok((8, 10, 12)));
    host.release(b);
}

#[test]
fn store_root_read_borrow_serializes_write() {
    let mut host = Host::new();
    host.insert_slot(COMPONENT, 7, component(sample_mat())).unwrap();
    let c = store_ref(COMPONENT, 7).project(Accessor::Field("mat3".to_string()));
    let h1 = c.project(Accessor::Index(0));
    let h2 = c.project(Accessor::Index(1));
    let b = host.borrow(&h1, AccessMode::Read).unwrap();
    assert_eq!(host.read(&h2, |v| triple(&v)), Ok((4, 5, 6)));
    assert_eq!(host.write(&h2, double_all), Err(RefError::Contended));
    assert_eq!(host.insert_slot(OTHER, 1, num(0)), Err(RefError::Contended));
    host.release(b);
    assert_eq!(host.write(&h2, double_all), Ok(()));
    assert_eq!(host.read(&h1, |v| triple(&v)), Ok((1, 2, 3)));
    assert_eq!(host.read(&h2, |v| triple(&v)), Ok((8, 10, 12)));
}

#[test]
fn store_write_borrow_excludes_reads() {
    let mut host = Host::new();
    host.insert_slot(VEC3, 1, vec3(1, 2, 3)).unwrap();
    let h = store_ref(VEC3, 1);
    let b = host.borrow(&h, AccessMode::Write).unwrap();
    assert_eq!(host.read(&h, |v| triple(&v)), Err(RefError::Contended));
    assert!(matches!(host.borrow(&h, AccessMode::Read), Err(RefError::Contended)));
    host.release(b);
    assert_eq!(host.read(&h, |v| triple(&v)), Ok((1, 2, 3)));
}

#[test]
fn projection_onto_removed_slot_is_stale() {
    let mut host = Host::new();
    host.insert_slot(COMPONENT, 3, component(sample_mat())).unwrap();
    let h = store_ref(COMPONENT, 3).project(Accessor::Field("mat3".to_string()));
    let col = h.project(Accessor::Index(2));
    host.remove_slot(COMPONENT, 3).unwrap();
    assert_eq!(host.read(&col, |v| triple(&v)), Err(RefError::StaleRoot));
    assert_eq!(host.write(&col, double_all), Err(RefError::StaleRoot));
    assert!(matches!(host.borrow(&col, AccessMode::Read), Err(RefError::StaleRoot)));
}

#[test]
fn apply_then_read_gives_source_value() {
    let mut host = Host::new();
    host.insert_slot(COMPONENT, 1, component(sample_mat())).unwrap();
    let m = store_ref(COMPONENT, 1).project(Accessor::Field("mat3".to_string()));
    let src = m.project(Accessor::Index(2));
    let dst = m.project(Accessor::Index(0));
    let before = host.read(&src, |v| triple(&v)).unwrap();
    assert_eq!(host.apply(&dst, &src), Ok(()));
    assert_eq!(host.read(&dst, |v| triple(&v)), Ok(before));
    assert_eq!(before, (7, 8, 9));
    // the copy does not alias its source
    host.write(&src, double_all).unwrap();
    assert_eq!(host.read(&dst, |v| triple(&v)), Ok((7, 8, 9)));
}

#[test]
fn nested_wrapper_keeps_owner_alive() {
    let mut host = Host::new();
    let m1 = LuaWrapper::new(&mut host, sample_mat());
    let h = m1.to_handle();
    let c = LuaWrapper::new_ref(&h.project(Accessor::Index(0)), VEC3);
    let held = host.borrow(&c.to_handle(), AccessMode::Read).unwrap();
    let col0 = c.val(&host, |v| triple(&v));
    let col1 = host.read(&h.project(Accessor::Index(1)), |v| triple(&v));
    assert_eq!(col0, Ok((1, 2, 3)));
    assert_eq!(col1, Ok((4, 5, 6)));
    // destroying the matrix now would leave the column's borrow dangling
    assert!(m1.is_borrowed(&host));
    host.release(held);
    assert!(!m1.is_borrowed(&host));
    assert_eq!(m1.destroy(&mut host), Ok(()));
    assert_eq!(c.val(&host, |v| triple(&v)), Err(RefError::StaleRoot));
}

#[test]
fn apply_between_owned_values() {
    let mut host = Host::new();
    let a = LuaWrapper::new(&mut host, vec3(1, 2, 3));
    let b = LuaWrapper::new(&mut host, vec3(4, 5, 6));
    let ha = a.to_handle();
    let hb = b.to_handle();
    assert_eq!(host.apply(&hb, &ha), Ok(()));
    assert_eq!(b.val(&host, |v| triple(&v)), Ok((1, 2, 3)));
    assert_eq!(a.val(&host, |v| triple(&v)), Ok((1, 2, 3)));
    assert_eq!(triple(&b.inner(&host).unwrap()), (1, 2, 3));
    // the copy does not alias its source
    a.val_mut(&mut host, double_all).unwrap();
    assert_eq!(a.val(&host, |v| triple(&v)), Ok((2, 4, 6)));
    assert_eq!(b.val(&host, |v| triple(&v)), Ok((1, 2, 3)));
}

#[test]
fn apply_between_types_is_refused() {
    let mut host = Host::new();
    let a = LuaWrapper::new(&mut host, vec3(1, 2, 3));
    let b = LuaWrapper::new(&mut host, num(9));
    assert_eq!(host.apply(&b.to_handle(), &a.to_handle()), Err(RefError::TypeMismatch));
    assert_eq!(b.val(&host, |v| scalar(&v)), Ok(9));
    assert_eq!(a.apply_self_to_base(&mut host, &b.to_handle()), Err(RefError::TypeMismatch));
}

#[test]
fn write_that_changes_type_is_refused() {
    let mut host = Host::new();
    let a = LuaWrapper::new(&mut host, vec3(1, 2, 3));
    let r = a.val_mut(&mut host, |_v| (num(0), 5u8));
    assert_eq!(r, Err(RefError::TypeMismatch));
    assert_eq!(a.val(&host, |v| triple(&v)), Ok((1, 2, 3)));
    let r = a.val_mut(&mut host, |v| {
        let t = triple(&v);
        (vec3(t.2, t.1, t.0), t.0 + t.1 + t.2)
    });
    assert_eq!(r, Ok(6));
    assert_eq!(a.val(&host, |v| triple(&v)), Ok((3, 2, 1)));
}

#[test]
fn missing_field_or_index_is_stale() {
    let mut host = Host::new();
    let a = LuaWrapper::new(&mut host, vec3(1, 2, 3));
    let h = a.to_handle();
    let w = h.project(Accessor::Field("w".to_string()));
    let i = h.project(Accessor::Index(3));
    let deep = h.project(Accessor::Index(0)).project(Accessor::Index(0));
    assert_eq!(host.read(&w, |v| scalar(&v)), Err(RefError::StaleRoot));
    assert_eq!(host.read(&i, |v| scalar(&v)), Err(RefError::StaleRoot));
    assert_eq!(host.read(&deep, |v| scalar(&v)), Err(RefError::StaleRoot));
    let z = h.project(Accessor::Field("z".to_string()));
    assert_eq!(host.read(&z, |v| scalar(&v)), Ok(3));
}

#[test]
fn first_of_equal_field_names_wins() {
    let mut host = Host::new();
    let v = Reflected::Composite {
        ty: VEC3,
        names: vec!["x".to_string(), "x".to_string()],
        parts: vec![num(10), num(20)],
    };
    let a = LuaWrapper::new(&mut host, v);
    let h = a.to_handle().project(Accessor::Field("x".to_string()));
    assert_eq!(host.read(&h, |v| scalar(&v)), Ok(10));
}

#[test]
fn slot_insert_replaces_and_remove_forgets() {
    let mut host = Host::new();
    let h = store_ref(VEC3, 2);
    assert_eq!(host.read(&h, |v| triple(&v)), Err(RefError::StaleRoot));
    host.insert_slot(VEC3, 2, vec3(1, 1, 1)).unwrap();
    host.insert_slot(VEC3, 3, vec3(3, 3, 3)).unwrap();
    host.insert_slot(VEC3, 2, vec3(2, 2, 2)).unwrap();
    assert_eq!(host.read(&h, |v| triple(&v)), Ok((2, 2, 2)));
    assert_eq!(host.read(&store_ref(VEC3, 3), |v| triple(&v)), Ok((3, 3, 3)));
    host.remove_slot(VEC3, 2).unwrap();
    assert_eq!(host.read(&h, |v| triple(&v)), Err(RefError::StaleRoot));
    assert_eq!(host.read(&store_ref(VEC3, 3), |v| triple(&v)), Ok((3, 3, 3)));
    host.insert_slot(VEC3, 2, vec3(5, 5, 5)).unwrap();
    assert_eq!(host.read(&h, |v| triple(&v)), Ok((5, 5, 5)));
}

#[test]
fn derived_root_resolves_through_parent() {
    let mut host = Host::new();
    host.insert_slot(VEC3, 4, vec3(4, 5, 6)).unwrap();
    let h = LuaRef {
        root: Root::Derived { parent: Box::new(Root::Derived { parent: Box::new(Root::StoreSlot { ty: VEC3, entity: 4 }) }) },
        path: vec![Accessor::Index(1)],
    };
    assert_eq!(host.read(&h, |v| scalar(&v)), Ok(5));
    let b = host.borrow(&h, AccessMode::Read).unwrap();
    assert_eq!(host.write(&h, |v| (num(scalar(&v) + 1), ())), Err(RefError::Contended));
    host.release(b);
    assert_eq!(host.write(&h, |v| (num(scalar(&v) + 1), ())), Ok(()));
    assert_eq!(host.read(&store_ref(VEC3, 4), |v| triple(&v)), Ok((4, 6, 6)));
}

#[test]
fn component_field_assignment() {
    let mut host = Host::new();
    host.insert_slot(COMPONENT, 9, component(sample_mat())).unwrap();
    let comp = LuaComponent { comp: store_ref(COMPONENT, 9) };
    let field = comp.index("mat3".to_string());
    assert_eq!(field.path.len(), 1);
    let replacement = LuaWrapper::new(&mut host, mat3(vec3(0, 0, 0), vec3(1, 1, 1), vec3(2, 2, 2)));
    assert_eq!(comp.new_index(&mut host, "mat3".to_string(), &replacement), Ok(()));
    let col = field.project(Accessor::Index(2));
    assert_eq!(host.read(&col, |v| triple(&v)), Ok((2, 2, 2)));
    assert_eq!(comp.new_index(&mut host, "missing".to_string(), &replacement), Err(RefError::StaleRoot));
    let res = LuaResource { res: store_ref(COMPONENT, 9) };
    assert_eq!(host.read(&res.res, |v| v.type_id()), Ok(COMPONENT));
}

#[test]
fn ref_wrapper_reads_and_writes_store() {
    let mut host = Host::new();
    host.insert_slot(VEC3, 8, vec3(1, 2, 3)).unwrap();
    let w = LuaWrapper::base_to_self(&store_ref(VEC3, 8), VEC3);
    assert_eq!(triple(&w.inner(&host).unwrap()), (1, 2, 3));
    w.val_mut(&mut host, double_all).unwrap();
    assert_eq!(host.read(&store_ref(VEC3, 8), |v| triple(&v)), Ok((2, 4, 6)));
    let owned = LuaWrapper::new(&mut host, vec3(7, 7, 7));
    assert_eq!(owned.apply_self_to_base(&mut host, &w.to_handle()), Ok(()));
    assert_eq!(w.val(&host, |v| triple(&v)), Ok((7, 7, 7)));
    assert_eq!(w.destroy(&mut host), Ok(()));
    host.remove_slot(VEC3, 8).unwrap();
    assert_eq!(owned.apply_self_to_base(&mut host, &store_ref(VEC3, 8)), Err(RefError::StaleRoot));
}

#[test]
fn duplicate_is_independent() {
    let m = sample_mat();
    let d = m.duplicate();
    let mut host = Host::new();
    let a = LuaWrapper::new(&mut host, m);
    let b = LuaWrapper::new(&mut host, d);
    a.val_mut(&mut host, |v| double_columns(v)).unwrap();
    let h = b.to_handle().project(Accessor::Index(0));
    assert_eq!(host.read(&h, |v| triple(&v)), Ok((1, 2, 3)));
}

fn double_columns(v: Reflected) -> (Reflected, ()) {
    match v {
        Reflected::Composite { ty, names, parts } => {
            (Reflected::Composite { ty, names, parts: parts.iter().map(|c| double_all(c.duplicate()).0).collect() }, ())
        }
        other => (other, ()),
    }
}

#[test]
fn codegen_context_holds_its_parts() {
    let cb = BevyAnalyzerCallbacks::new(vec!["generate".to_string()]);
    assert_eq!(cb.args, vec!["generate".to_string()]);
    let collect = Collect { crates: vec![Crate { name: "bevy_math".to_string(), meta: 3u8 }], api_name: "LuaBevyAPI".to_string() };
    assert_eq!(collect.crates[0].name, "bevy_math");
    assert_eq!(collect.crates[0].meta, 3);
    assert_eq!(collect.api_name, "LuaBevyAPI");
}

#[test]
fn wrapper_type_is_checked() {
    let mut host = Host::new();
    host.insert_slot(VEC3, 1, vec3(1, 2, 3)).unwrap();
    let right = LuaWrapper::new_ref(&store_ref(VEC3, 1), VEC3);
    let wrong = LuaWrapper::new_ref(&store_ref(VEC3, 1), MAT3);
    let stale = LuaWrapper::new_ref(&store_ref(VEC3, 2), MAT3);
    assert!(right.type_matches(&host));
    assert!(!wrong.type_matches(&host));
    assert!(stale.type_matches(&host));
    let owned = LuaWrapper::new(&mut host, num(4));
    assert!(owned.type_matches(&host));
    assert!(!owned.is_borrowed(&host));
    assert!(!right.is_borrowed(&host));
}
