use vstd::prelude::*;

verus! {

/// What a host value looks like to the bridge: a scalar, or a composite whose parts
/// can be reached by name or by position.
pub enum Value {
    Scalar { ty: u64, val: i64 },
    Composite { ty: u64, names: Seq<Seq<char>>, parts: Seq<Value> },
}

/// One step from a value to one of its parts, as a mathematical object.
pub enum Step {
    Field(Seq<char>),
    Index(nat),
}

/// A live host value, exposed through its type identifier, its named parts and its
/// positional parts.
pub enum Reflected {
    Scalar { ty: u64, val: i64 },
    Composite { ty: u64, names: Vec<String>, parts: Vec<Reflected> },
}

/// One step of a path: a part picked by its field name or by its position.
pub enum Accessor {
    Field(String),
    Index(usize),
}

pub open spec fn value_of(r: Reflected) -> Value
    decreases r, 0nat,
{
    match r {
        Reflected::Scalar { ty, val } => Value::Scalar { ty, val },
        Reflected::Composite { ty, names, parts } => Value::Composite {
            ty,
            names: names@.map_values(|s: String| s@),
            parts: values_of(parts, parts@.len()),
        },
    }
}

/// The views of the first `n` parts.
pub open spec fn values_of(parts: Vec<Reflected>, n: nat) -> Seq<Value>
    decreases parts, n,
{
    if n == 0 || n > parts@.len() {
        Seq::empty()
    } else {
        values_of(parts, (n - 1) as nat).push(value_of(parts@[n - 1]))
    }
}

impl View for Reflected {
    type V = Value;

    open spec fn view(&self) -> Value {
        value_of(*self)
    }
}

impl View for Accessor {
    type V = Step;

    open spec fn view(&self) -> Step {
        match self {
            Accessor::Field(name) => Step::Field(name@),
            Accessor::Index(i) => Step::Index(*i as nat),
        }
    }
}

/// The path of accessors as a sequence of steps.
pub open spec fn steps(path: Seq<Accessor>) -> Seq<Step> {
    path.map_values(|a: Accessor| a@)
}

pub open spec fn type_of(v: Value) -> u64 {
    match v {
        Value::Scalar { ty, .. } => ty,
        Value::Composite { ty, .. } => ty,
    }
}

/// The position of the first of the first `k` names that equals `name`.
pub open spec fn first_name(names: Seq<Seq<char>>, name: Seq<char>, k: nat) -> Option<int>
    decreases k,
{
    if k == 0 || k > names.len() {
        None
    } else {
        match first_name(names, name, (k - 1) as nat) {
            Some(i) => Some(i),
            None => if names[k - 1] == name {
                Some(k - 1)
            } else {
                None
            },
        }
    }
}

/// The position of the part of `v` that `s` designates, if there is one.
pub open spec fn pos_of(v: Value, s: Step) -> Option<int> {
    match v {
        Value::Scalar { .. } => None,
        Value::Composite { names, parts, .. } => match s {
            Step::Index(i) => if i < parts.len() {
                Some(i as int)
            } else {
                None
            },
            Step::Field(n) => match first_name(names, n, names.len()) {
                Some(i) => if 0 <= i < parts.len() {
                    Some(i)
                } else {
                    None
                },
                None => None,
            },
        },
    }
}

/// The value reached from `v` by walking the steps of `p` left to right.
pub open spec fn leaf_at(v: Value, p: Seq<Step>) -> Option<Value>
    decreases p.len(),
{
    if p.len() == 0 {
        Some(v)
    } else {
        match pos_of(v, p[0]) {
            Some(i) => leaf_at(v->Composite_parts[i], p.drop_first()),
            None => None,
        }
    }
}

/// `v` with the value at the end of `p` replaced by `new`; `v` itself where `p`
/// leads nowhere.
pub open spec fn set_at(v: Value, p: Seq<Step>, new: Value) -> Value
    decreases p.len(),
{
    if p.len() == 0 {
        new
    } else {
        match pos_of(v, p[0]) {
            Some(i) => Value::Composite {
                ty: v->Composite_ty,
                names: v->Composite_names,
                parts: v->Composite_parts.update(
                    i,
                    set_at(v->Composite_parts[i], p.drop_first(), new),
                ),
            },
            None => v,
        }
    }
}

pub proof fn lemma_values_of(parts: Vec<Reflected>, n: nat)
    requires
        n <= parts@.len(),
    ensures
        values_of(parts, n).len() == n,
        forall|i: int| 0 <= i < n ==> #[trigger] values_of(parts, n)[i] == parts@[i]@,
    decreases n,
{
    if n > 0 {
        lemma_values_of(parts, (n - 1) as nat);
    }
}

/// Writing at the end of a path that resolves, then reading there, gives what was
/// written.
pub proof fn lemma_set_then_leaf(v: Value, p: Seq<Step>, new: Value)
    requires
        leaf_at(v, p) is Some,
    ensures
        leaf_at(set_at(v, p, new), p) == Some(new),
    decreases p.len(),
{
    if p.len() > 0 {
        let i = pos_of(v, p[0])->Some_0;
        lemma_set_then_leaf(v->Composite_parts[i], p.drop_first(), new);
        let w = set_at(v, p, new);
        assert(pos_of(w, p[0]) == Some(i));
    }
}

/// Two paths into `v` that agree on their first `k` steps and then pick two different
/// parts of the value they have reached.
pub open spec fn diverge_at(v: Value, p1: Seq<Step>, p2: Seq<Step>, k: int) -> bool {
    &&& 0 <= k < p1.len()
    &&& k < p2.len()
    &&& p1.take(k) == p2.take(k)
    &&& leaf_at(v, p1.take(k)) is Some
    &&& pos_of(leaf_at(v, p1.take(k))->Some_0, p1[k]) is Some
    &&& pos_of(leaf_at(v, p1.take(k))->Some_0, p2[k]) is Some
    &&& pos_of(leaf_at(v, p1.take(k))->Some_0, p1[k]) != pos_of(
        leaf_at(v, p1.take(k))->Some_0,
        p2[k],
    )
}

/// Paths into `v` that lead to parts that do not overlap.
pub open spec fn disjoint_paths(v: Value, p1: Seq<Step>, p2: Seq<Step>) -> bool {
    exists|k: int| diverge_at(v, p1, p2, k)
}

/// A write at the end of one path leaves what a disjoint path reaches untouched.
pub proof fn lemma_disjoint_set(v: Value, p1: Seq<Step>, p2: Seq<Step>, new: Value, k: int)
    requires
        diverge_at(v, p1, p2, k),
    ensures
        leaf_at(set_at(v, p2, new), p1) == leaf_at(v, p1),
    decreases k,
{
    let w = set_at(v, p2, new);
    if k == 0 {
        assert(p1.take(0) =~= Seq::<Step>::empty());
        let i1 = pos_of(v, p1[0])->Some_0;
        let i2 = pos_of(v, p2[0])->Some_0;
        assert(pos_of(w, p1[0]) == Some(i1));
        assert(w->Composite_parts[i1] == v->Composite_parts[i1]);
    } else {
        assert(p1[0] == p1.take(k)[0]);
        assert(p2[0] == p2.take(k)[0]);
        let i = pos_of(v, p1[0])->Some_0;
        assert(p1.take(k).drop_first() =~= p1.drop_first().take(k - 1));
        assert(p2.take(k).drop_first() =~= p2.drop_first().take(k - 1));
        assert(diverge_at(v->Composite_parts[i], p1.drop_first(), p2.drop_first(), k - 1));
        lemma_disjoint_set(v->Composite_parts[i], p1.drop_first(), p2.drop_first(), new, k - 1);
        assert(pos_of(w, p1[0]) == Some(i));
    }
}

impl Accessor {
    pub fn duplicate(&self) -> (r: Accessor)
        ensures
            r@ == self@,
    {
        match self {
            Accessor::Field(name) => Accessor::Field(name.clone()),
            Accessor::Index(i) => Accessor::Index(*i),
        }
    }
}

impl Reflected {
    pub proof fn lemma_parts(self)
        requires
            self is Composite,
        ensures
            self@->Composite_parts.len() == self->Composite_parts@.len(),
            forall|i: int|
                0 <= i < self->Composite_parts@.len() ==> #[trigger] self@->Composite_parts[i]
                    == self->Composite_parts@[i]@,
            self@->Composite_names.len() == self->Composite_names@.len(),
            forall|i: int|
                0 <= i < self->Composite_names@.len() ==> #[trigger] self@->Composite_names[i]
                    == self->Composite_names@[i]@,
    {
        lemma_values_of(self->Composite_parts, self->Composite_parts@.len());
    }

    /// The type identifier of the value.
    pub fn type_id(&self) -> (r: u64)
        ensures
            r == type_of(self@),
    {
        match self {
            Reflected::Scalar { ty, .. } => *ty,
            Reflected::Composite { ty, .. } => *ty,
        }
    }

    /// An independent copy of the value.
    pub fn duplicate(&self) -> (r: Reflected)
        ensures
            r@ == self@,
        decreases self,
    {
        match self {
            Reflected::Scalar { ty, val } => Reflected::Scalar { ty: *ty, val: *val },
            Reflected::Composite { ty, names, parts } => {
                let mut out: Vec<Reflected> = Vec::new();
                let mut i: usize = 0;
                while i < parts.len()
                    invariant
                        i <= parts@.len(),
                        *self == (Reflected::Composite { ty: *ty, names: *names, parts: *parts }),
                        out@.len() == i,
                        forall|j: int| 0 <= j < i ==> (#[trigger] out@[j])@ == parts@[j]@,
                    decreases parts@.len() - i,
                {
                    proof {
                        vstd::std_specs::vec::axiom_vec_index_decreases(*parts, i as int);
                        assert(decreases_to!(*self => self->Composite_parts));
                    }
                    let c = parts[i].duplicate();
                    out.push(c);
                    i = i + 1;
                }
                let r = Reflected::Composite { ty: *ty, names: names.clone(), parts: out };
                proof {
                    lemma_values_of(*parts, parts@.len());
                    lemma_values_of(out, out@.len());
                    assert(values_of(out, out@.len()) =~= values_of(*parts, parts@.len()));
                    assert(r@->Composite_names =~= self@->Composite_names);
                }
                r
            },
        }
    }

    /// The position of the part that `a` designates.
    pub fn position(&self, a: &Accessor) -> (r: Option<usize>)
        ensures
            r is Some <==> pos_of(self@, a@) is Some,
            r is Some ==> r->Some_0 as int == pos_of(self@, a@)->Some_0,
    {
        match self {
            Reflected::Scalar { .. } => None,
            Reflected::Composite { names, parts, .. } => {
                proof {
                    self.lemma_parts();
                }
                match a {
                    Accessor::Index(i) => {
                        if *i < parts.len() {
                            Some(*i)
                        } else {
                            None
                        }
                    },
                    Accessor::Field(name) => {
                        let ghost ns = self@->Composite_names;
                        let mut k: usize = 0;
                        while k < names.len()
                            invariant
                                k <= names@.len(),
                                ns.len() == names@.len(),
                                forall|j: int| 0 <= j < names@.len() ==> #[trigger] ns[j] == names@[j]@,
                                self@ is Composite,
                                self@->Composite_names == ns,
                                self@->Composite_parts.len() == parts@.len(),
                                a@ == Step::Field(name@),
                                first_name(ns, name@, k as nat) is None,
                            decreases names@.len() - k,
                        {
                            if names[k] == *name {
                                assert(first_name(ns, name@, (k + 1) as nat) == Some(k as int));
                                assert forall|m: nat| k + 1 <= m <= ns.len() implies first_name(ns, name@, m) == Some(k as int) by {
                                    lemma_first_name_stable(ns, name@, (k + 1) as nat, m);
                                }
                                if k < parts.len() {
                                    return Some(k);
                                } else {
                                    return None;
                                }
                            }
                            k = k + 1;
                        }
                        None
                    },
                }
            },
        }
    }

    /// The value at the end of the steps of `path` from position `k` on.
    pub fn leaf(&self, path: &Vec<Accessor>, k: usize) -> (r: Option<&Reflected>)
        requires
            k <= path@.len(),
        ensures
            r is Some <==> leaf_at(self@, steps(path@).skip(k as int)) is Some,
            r is Some ==> r->Some_0@ == leaf_at(self@, steps(path@).skip(k as int))->Some_0,
        decreases path@.len() - k,
    {
        let ghost p = steps(path@).skip(k as int);
        if k == path.len() {
            assert(p.len() == 0);
            return Some(self);
        }
        assert(p[0] == path@[k as int]@);
        assert(p.drop_first() =~= steps(path@).skip(k + 1));
        match self.position(&path[k]) {
            None => None,
            Some(i) => match self {
                Reflected::Scalar { .. } => None,
                Reflected::Composite { parts, .. } => {
                    proof {
                        self.lemma_parts();
                    }
                    parts[i].leaf(path, k + 1)
                },
            },
        }
    }

    /// The value with the part at the end of the steps of `path` from position `k` on
    /// replaced by `new`.
    pub fn replace_at(self, path: &Vec<Accessor>, k: usize, new: Reflected) -> (r: Reflected)
        requires
            k <= path@.len(),
            leaf_at(self@, steps(path@).skip(k as int)) is Some,
        ensures
            r@ == set_at(self@, steps(path@).skip(k as int), new@),
        decreases path@.len() - k,
    {
        let ghost p = steps(path@).skip(k as int);
        let ghost old_view = self@;
        if k == path.len() {
            assert(p.len() == 0);
            return new;
        }
        assert(p[0] == path@[k as int]@);
        assert(p.drop_first() =~= steps(path@).skip(k + 1));
        let pos = self.position(&path[k]);
        proof {
            if self is Composite {
                self.lemma_parts();
            }
        }
        match self {
            // a scalar has no parts, so a path that resolves ends at it
            Reflected::Scalar { ty, val } => {
                Reflected::Scalar { ty, val }
            },
            Reflected::Composite { ty, names, mut parts } => {
                let i = match pos {
                    Some(i) => i,
                    None => 0,
                };
                let ghost old_parts = parts@;
                let child = parts.remove(i);
                let c2 = child.replace_at(path, k + 1, new);
                parts.insert(i, c2);
                let r = Reflected::Composite { ty, names, parts };
                proof {
                    assert(parts@ =~= old_parts.update(i as int, c2));
                    r.lemma_parts();
                    assert(r@->Composite_parts =~= set_at(old_view, p, new@)->Composite_parts);
                    assert(r@->Composite_names =~= old_view->Composite_names);
                }
                r
            },
        }
    }
}

pub proof fn lemma_first_name_stable(names: Seq<Seq<char>>, name: Seq<char>, k: nat, m: nat)
    requires
        k <= m <= names.len(),
        first_name(names, name, k) is Some,
    ensures
        first_name(names, name, m) == first_name(names, name, k),
    decreases m - k,
{
    if m > k {
        lemma_first_name_stable(names, name, k, (m - 1) as nat);
    }
}

} // verus!
