//! The type table: an arena of type descriptions addressed by `TypeId`, and the
//! relations the resolver needs over it (unification checks, dealiasing,
//! bucket classification).
use vstd::prelude::*;

verus! {

/// Handle of a type in a [`TypeEngine`].
pub type TypeId = usize;

pub(crate) fn copy_ids(v: &Vec<TypeId>) -> (r: Vec<TypeId>)
    ensures
        r@ == v@,
{
    let mut r: Vec<TypeId> = Vec::new();
    let mut i: usize = 0;
    while i < v.len()
        invariant
            i <= v@.len(),
            r@ == v@.take(i as int),
        decreases v@.len() - i,
    {
        r.push(v[i]);
        i += 1;
        assert(r@ =~= v@.take(i as int));
    }
    assert(v@.take(v@.len() as int) =~= v@);
    r
}

#[derive(Clone, Copy, Debug, PartialEq, Eq, Structural)]
pub enum IntegerBits {
    Eight,
    Sixteen,
    ThirtyTwo,
    SixtyFour,
    V256,
}

/// One entry of the type table. Children are referenced by handle and always
/// stand earlier in the table than the entry that names them.
#[derive(Clone, Debug)]
pub enum TypeInfo {
    Unknown,
    Never,
    /// A generic type parameter that is not resolved yet.
    UnknownGeneric { is_from_type_parameter: bool },
    Placeholder,
    StringSlice,
    StringArray(usize),
    UnsignedInteger(IntegerBits),
    Boolean,
    B256,
    /// An integer literal whose width is not decided yet (defaults to `u64`).
    Numeric,
    Contract,
    ErrorRecovery,
    Tuple(Vec<TypeId>),
    /// An instance of the struct declaration `decl` with its type arguments.
    Struct { decl: usize, args: Vec<TypeId> },
    Enum { decl: usize, args: Vec<TypeId> },
    Array { elem: TypeId, length: usize },
    Slice(TypeId),
    Ref { to_mutable_value: bool, referenced: TypeId },
    Alias { ty: TypeId },
}

/// Every handle that `t` names is below `bound`.
pub open spec fn children_below(t: TypeInfo, bound: int) -> bool {
    match t {
        TypeInfo::Tuple(v) => forall|k: int| 0 <= k < v@.len() ==> v@[k] < bound,
        TypeInfo::Struct { args, .. } => forall|k: int| 0 <= k < args@.len() ==> args@[k] < bound,
        TypeInfo::Enum { args, .. } => forall|k: int| 0 <= k < args@.len() ==> args@[k] < bound,
        TypeInfo::Array { elem, .. } => elem < bound,
        TypeInfo::Slice(elem) => elem < bound,
        TypeInfo::Ref { referenced, .. } => referenced < bound,
        TypeInfo::Alias { ty } => ty < bound,
        _ => true,
    }
}

/// A table is well formed when each entry only names earlier entries.
pub open spec fn types_wf(types: Seq<TypeInfo>) -> bool {
    forall|i: int| 0 <= i < types.len() ==> #[trigger] children_below(types[i], i)
}

pub open spec fn is_generic(t: TypeInfo) -> bool {
    t is UnknownGeneric || t is Placeholder
}

/// The flavours of the "left unifies into right" check.
#[derive(Clone, Copy, Debug, PartialEq, Eq, Structural)]
pub enum UnifyKind {
    /// A generic on the right accepts any type.
    ConstraintSubset,
    /// A generic on the right accepts only a generic.
    NonGenericConstraintSubset,
    /// As `ConstraintSubset`, and `&mut T` also unifies into `&T`.
    Coercion,
}

/// `l` unifies into `r` under `kind`. Aliases are looked through on both sides.
pub open spec fn unifies(types: Seq<TypeInfo>, kind: UnifyKind, l: TypeId, r: TypeId) -> bool
    decreases l + r,
    when types_wf(types) && l < types.len() && r < types.len()
{
    let lt = types[l as int];
    let rt = types[r as int];
    proof {
        assert(children_below(types[l as int], l as int));
        assert(children_below(types[r as int], r as int));
    }
    if let TypeInfo::Alias { ty } = lt {
        unifies(types, kind, ty, r)
    } else if let TypeInfo::Alias { ty } = rt {
        unifies(types, kind, l, ty)
    } else if lt is ErrorRecovery || rt is ErrorRecovery {
        true
    } else if is_generic(rt) {
        kind != UnifyKind::NonGenericConstraintSubset || is_generic(lt)
    } else {
        match (lt, rt) {
            (TypeInfo::Unknown, TypeInfo::Unknown) => true,
            (TypeInfo::Never, TypeInfo::Never) => true,
            (TypeInfo::StringSlice, TypeInfo::StringSlice) => true,
            (TypeInfo::StringArray(a), TypeInfo::StringArray(b)) => a == b,
            (TypeInfo::UnsignedInteger(a), TypeInfo::UnsignedInteger(b)) => a == b,
            (TypeInfo::Numeric, TypeInfo::Numeric) => true,
            (TypeInfo::Numeric, TypeInfo::UnsignedInteger(_)) => true,
            (TypeInfo::UnsignedInteger(_), TypeInfo::Numeric) => true,
            (TypeInfo::Boolean, TypeInfo::Boolean) => true,
            (TypeInfo::B256, TypeInfo::B256) => true,
            (TypeInfo::Contract, TypeInfo::Contract) => true,
            (TypeInfo::Tuple(a), TypeInfo::Tuple(b)) => a@.len() == b@.len() && forall|k: int|
                0 <= k < a@.len() ==> unifies(types, kind, a@[k], b@[k]),
            (TypeInfo::Struct { decl: da, args: a }, TypeInfo::Struct { decl: db, args: b }) => da
                == db && a@.len() == b@.len() && forall|k: int|
                0 <= k < a@.len() ==> unifies(types, kind, a@[k], b@[k]),
            (TypeInfo::Enum { decl: da, args: a }, TypeInfo::Enum { decl: db, args: b }) => da
                == db && a@.len() == b@.len() && forall|k: int|
                0 <= k < a@.len() ==> unifies(types, kind, a@[k], b@[k]),
            (TypeInfo::Array { elem: a, length: la }, TypeInfo::Array { elem: b, length: lb }) =>
                la == lb && unifies(types, kind, a, b),
            (TypeInfo::Slice(a), TypeInfo::Slice(b)) => unifies(types, kind, a, b),
            (
                TypeInfo::Ref { to_mutable_value: ma, referenced: a },
                TypeInfo::Ref { to_mutable_value: mb, referenced: b },
            ) => (ma == mb || (kind == UnifyKind::Coercion && ma && !mb)) && unifies(
                types,
                kind,
                a,
                b,
            ),
            _ => false,
        }
    }
}


/// `unifies` in the reference-mutability sense only: wherever both sides are
/// references at the same depth, their mutability agrees.
pub open spec fn ref_layers_agree(types: Seq<TypeInfo>, l: TypeId, r: TypeId) -> bool
    decreases l + r,
    when types_wf(types) && l < types.len() && r < types.len()
{
    proof {
        assert(children_below(types[l as int], l as int));
        assert(children_below(types[r as int], r as int));
    }
    match (types[l as int], types[r as int]) {
        (TypeInfo::Alias { ty }, _) => ref_layers_agree(types, ty, r),
        (_, TypeInfo::Alias { ty }) => ref_layers_agree(types, l, ty),
        (
            TypeInfo::Ref { to_mutable_value: ma, referenced: a },
            TypeInfo::Ref { to_mutable_value: mb, referenced: b },
        ) => ma == mb && ref_layers_agree(types, a, b),
        _ => true,
    }
}

/// The handle reached by following aliases from `id`.
pub open spec fn dealias(types: Seq<TypeInfo>, id: TypeId) -> TypeId
    decreases id,
    when types_wf(types) && id < types.len()
{
    proof {
        assert(children_below(types[id as int], id as int));
    }
    match types[id as int] {
        TypeInfo::Alias { ty } => dealias(types, ty),
        _ => id,
    }
}

/// Coarse classification of a type's outermost shape, used to shard the
/// implementation index.
#[derive(Clone, Copy, Debug, PartialEq, Eq, Structural)]
pub enum TypeRootFilter {
    Unknown,
    Never,
    Placeholder,
    StringSlice,
    StringArray(usize),
    U8,
    U16,
    U32,
    U64,
    U256,
    Bool,
    B256,
    Contract,
    ErrorRecovery,
    Tuple(usize),
    Enum(usize),
    Struct(usize),
    Array(usize),
    Slice,
}

/// The bucket of a type: aliases and references are looked through, so `&T`,
/// `&mut T` and an alias of `T` share the bucket of `T`.
pub open spec fn root_filter(types: Seq<TypeInfo>, id: TypeId) -> TypeRootFilter
    decreases id,
    when types_wf(types) && id < types.len()
{
    proof {
        assert(children_below(types[id as int], id as int));
    }
    match types[id as int] {
        TypeInfo::Unknown => TypeRootFilter::Unknown,
        TypeInfo::Never => TypeRootFilter::Never,
        TypeInfo::UnknownGeneric { .. } => TypeRootFilter::Placeholder,
        TypeInfo::Placeholder => TypeRootFilter::Placeholder,
        TypeInfo::StringSlice => TypeRootFilter::StringSlice,
        TypeInfo::StringArray(n) => TypeRootFilter::StringArray(n),
        TypeInfo::UnsignedInteger(bits) => match bits {
            IntegerBits::Eight => TypeRootFilter::U8,
            IntegerBits::Sixteen => TypeRootFilter::U16,
            IntegerBits::ThirtyTwo => TypeRootFilter::U32,
            IntegerBits::SixtyFour => TypeRootFilter::U64,
            IntegerBits::V256 => TypeRootFilter::U256,
        },
        TypeInfo::Boolean => TypeRootFilter::Bool,
        TypeInfo::B256 => TypeRootFilter::B256,
        TypeInfo::Numeric => TypeRootFilter::U64,
        TypeInfo::Contract => TypeRootFilter::Contract,
        TypeInfo::ErrorRecovery => TypeRootFilter::ErrorRecovery,
        TypeInfo::Tuple(v) => TypeRootFilter::Tuple(v@.len() as usize),
        TypeInfo::Struct { decl, .. } => TypeRootFilter::Struct(decl),
        TypeInfo::Enum { decl, .. } => TypeRootFilter::Enum(decl),
        TypeInfo::Array { length, .. } => TypeRootFilter::Array(length),
        TypeInfo::Slice(_) => TypeRootFilter::Slice,
        TypeInfo::Ref { referenced, .. } => root_filter(types, referenced),
        TypeInfo::Alias { ty } => root_filter(types, ty),
    }
}

/// A type is concrete when nothing inside it is unknown, generic or an
/// undecided integer literal.
pub open spec fn is_concrete(types: Seq<TypeInfo>, id: TypeId) -> bool
    decreases id,
    when types_wf(types) && id < types.len()
{
    proof {
        assert(children_below(types[id as int], id as int));
    }
    match types[id as int] {
        TypeInfo::Unknown => false,
        TypeInfo::UnknownGeneric { .. } => false,
        TypeInfo::Placeholder => false,
        TypeInfo::Numeric => false,
        TypeInfo::Tuple(v) => forall|k: int| 0 <= k < v@.len() ==> is_concrete(types, v@[k]),
        TypeInfo::Struct { args, .. } => forall|k: int|
            0 <= k < args@.len() ==> is_concrete(types, args@[k]),
        TypeInfo::Enum { args, .. } => forall|k: int|
            0 <= k < args@.len() ==> is_concrete(types, args@[k]),
        TypeInfo::Array { elem, .. } => is_concrete(types, elem),
        TypeInfo::Slice(elem) => is_concrete(types, elem),
        TypeInfo::Ref { referenced, .. } => is_concrete(types, referenced),
        TypeInfo::Alias { ty } => is_concrete(types, ty),
        _ => true,
    }
}

/// The handles a type names directly.
pub open spec fn children(t: TypeInfo) -> Seq<TypeId> {
    match t {
        TypeInfo::Tuple(v) => v@,
        TypeInfo::Struct { args, .. } => args@,
        TypeInfo::Enum { args, .. } => args@,
        TypeInfo::Array { elem, .. } => seq![elem],
        TypeInfo::Slice(elem) => seq![elem],
        TypeInfo::Ref { referenced, .. } => seq![referenced],
        TypeInfo::Alias { ty } => seq![ty],
        _ => Seq::empty(),
    }
}

pub proof fn lemma_children_below(t: TypeInfo, bound: int)
    requires
        children_below(t, bound),
    ensures
        forall|k: int| 0 <= k < children(t).len() ==> children(t)[k] < bound,
{
}

/// `t` and `u` agree in everything but the handles of their children.
pub open spec fn same_shape(t: TypeInfo, u: TypeInfo) -> bool {
    match (t, u) {
        (TypeInfo::Tuple(a), TypeInfo::Tuple(b)) => a@.len() == b@.len(),
        (TypeInfo::Struct { decl: x, args: a }, TypeInfo::Struct { decl: y, args: b }) => x == y && a@.len()
            == b@.len(),
        (TypeInfo::Enum { decl: x, args: a }, TypeInfo::Enum { decl: y, args: b }) => x == y && a@.len()
            == b@.len(),
        (TypeInfo::Array { length: x, .. }, TypeInfo::Array { length: y, .. }) => x == y,
        (TypeInfo::Slice(_), TypeInfo::Slice(_)) => true,
        (TypeInfo::Ref { to_mutable_value: x, .. }, TypeInfo::Ref { to_mutable_value: y, .. }) => x == y,
        (TypeInfo::Alias { .. }, TypeInfo::Alias { .. }) => true,
        _ => children(t).len() == 0 && t == u,
    }
}

/// The replacement of `t` under the substitution `m` (first pair wins).
pub open spec fn subst_lookup(m: Seq<(TypeId, TypeId)>, t: TypeId) -> Option<TypeId>
    decreases m.len(),
{
    if m.len() == 0 {
        None
    } else if m[0].0 == t {
        Some(m[0].1)
    } else {
        subst_lookup(m.drop_first(), t)
    }
}

/// `d` is `s` with every type that `m` maps replaced by its image.
pub open spec fn subst_rel(types: Seq<TypeInfo>, m: Seq<(TypeId, TypeId)>, s: TypeId, d: TypeId) -> bool
    decreases s,
    when types_wf(types) && s < types.len()
{
    proof {
        assert(children_below(types[s as int], s as int));
        lemma_children_below(types[s as int], s as int);
    }
    match subst_lookup(m, s) {
        Some(x) => d == x,
        None => {
            &&& d < types.len()
            &&& same_shape(types[s as int], types[d as int])
            &&& forall|k: int|
                0 <= k < children(types[s as int]).len() ==> subst_rel(
                    types,
                    m,
                    children(types[s as int])[k],
                    children(types[d as int])[k],
                )
        },
    }
}

/// How the generics of `sup` are bound when `sub` is taken for it: each
/// generic of `sup` paired with the part of `sub` at the same place.
pub open spec fn subst_pairs(types: Seq<TypeInfo>, sup: TypeId, sub: TypeId) -> Seq<(TypeId, TypeId)>
    decreases sup + sub, 1int, 0int,
    when types_wf(types) && sup < types.len() && sub < types.len()
{
    proof {
        assert(children_below(types[sup as int], sup as int));
        assert(children_below(types[sub as int], sub as int));
    }
    if let TypeInfo::Alias { ty } = types[sup as int] {
        subst_pairs(types, ty, sub)
    } else if let TypeInfo::Alias { ty } = types[sub as int] {
        subst_pairs(types, sup, ty)
    } else if is_generic(types[sup as int]) {
        seq![(sup, sub)]
    } else if same_shape(types[sup as int], types[sub as int]) {
        child_pairs(types, sup, sub, children(types[sup as int]).len() as int)
    } else {
        Seq::empty()
    }
}

/// `subst_pairs` of the first `k` children of `sup` and `sub`, in order.
pub open spec fn child_pairs(types: Seq<TypeInfo>, sup: TypeId, sub: TypeId, k: int) -> Seq<(TypeId, TypeId)>
    decreases sup + sub, 0int, k,
    when types_wf(types) && sup < types.len() && sub < types.len() && k <= children(types[sup as int]).len()
        && children(types[sup as int]).len() == children(types[sub as int]).len()
{
    proof {
        assert(children_below(types[sup as int], sup as int));
        assert(children_below(types[sub as int], sub as int));
        lemma_children_below(types[sup as int], sup as int);
        lemma_children_below(types[sub as int], sub as int);
    }
    if k <= 0 {
        Seq::empty()
    } else {
        child_pairs(types, sup, sub, k - 1) + subst_pairs(
            types,
            children(types[sup as int])[k - 1],
            children(types[sub as int])[k - 1],
        )
    }
}

/// The types nested inside `t`, each followed by those nested inside it.
pub open spec fn inner_types(types: Seq<TypeInfo>, t: TypeId) -> Seq<TypeId>
    decreases t, 1int, 0int,
    when types_wf(types) && t < types.len()
{
    inner_types_upto(types, t, children(types[t as int]).len() as int)
}

/// `inner_types` restricted to the first `k` children of `t`.
pub open spec fn inner_types_upto(types: Seq<TypeInfo>, t: TypeId, k: int) -> Seq<TypeId>
    decreases t, 0int, k,
    when types_wf(types) && t < types.len() && k <= children(types[t as int]).len()
{
    proof {
        assert(children_below(types[t as int], t as int));
        lemma_children_below(types[t as int], t as int);
    }
    if k <= 0 {
        Seq::empty()
    } else {
        let c = children(types[t as int])[k - 1];
        inner_types_upto(types, t, k - 1).push(c) + inner_types(types, c)
    }
}

/// `big` is `small` with more entries after it.
pub open spec fn extends(small: Seq<TypeInfo>, big: Seq<TypeInfo>) -> bool {
    small.len() <= big.len() && big.subrange(0, small.len() as int) == small
}

pub proof fn lemma_extends_trans(a: Seq<TypeInfo>, b: Seq<TypeInfo>, c: Seq<TypeInfo>)
    requires
        extends(a, b),
        extends(b, c),
    ensures
        extends(a, c),
{
    assert(c.subrange(0, a.len() as int) =~= b.subrange(0, a.len() as int));
}

pub proof fn lemma_subst_rel_stable(
    small: Seq<TypeInfo>,
    big: Seq<TypeInfo>,
    m: Seq<(TypeId, TypeId)>,
    s: TypeId,
    d: TypeId,
)
    requires
        types_wf(small),
        types_wf(big),
        extends(small, big),
        s < small.len(),
        d < small.len(),
        subst_rel(small, m, s, d),
        forall|i: int| 0 <= i < m.len() ==> m[i].1 < small.len(),
    ensures
        subst_rel(big, m, s, d),
    decreases s,
{
    assert(big[s as int] == small[s as int]);
    assert(children_below(small[s as int], s as int));
    lemma_children_below(small[s as int], s as int);
    if subst_lookup(m, s) is None {
        assert(big[d as int] == small[d as int]);
        assert(children_below(small[d as int], d as int));
        lemma_children_below(small[d as int], d as int);
        assert forall|k: int| 0 <= k < children(big[s as int]).len() implies subst_rel(
            big,
            m,
            children(big[s as int])[k],
            children(big[d as int])[k],
        ) by {
            assert(subst_rel(small, m, children(small[s as int])[k], children(small[d as int])[k]));
            lemma_subst_rel_stable(small, big, m, children(small[s as int])[k], children(small[d as int])[k]);
        }
    }
}

/// The type table.
pub struct TypeEngine {
    pub types: Vec<TypeInfo>,
}

impl TypeEngine {
    pub open spec fn view(&self) -> Seq<TypeInfo> {
        self.types@
    }

    pub open spec fn wf(&self) -> bool {
        types_wf(self.types@)
    }

    pub open spec fn valid(&self, id: TypeId) -> bool {
        id < self.types@.len()
    }

    pub fn new() -> (r: TypeEngine)
        ensures
            r.wf(),
            r.types@.len() == 0,
    {
        TypeEngine { types: Vec::new() }
    }

    /// Adds a type whose children are already in the table; returns its handle.
    pub fn insert(&mut self, t: TypeInfo) -> (id: TypeId)
        requires
            old(self).wf(),
            children_below(t, old(self).types@.len() as int),
        ensures
            final(self).wf(),
            final(self).types@ == old(self).types@.push(t),
            id == old(self).types@.len(),
    {
        let id = self.types.len();
        self.types.push(t);
        assert forall|i: int| 0 <= i < self.types@.len() implies #[trigger] children_below(
            self.types@[i],
            i,
        ) by {
            if i < id as int {
                assert(children_below(old(self).types@[i], i));
            }
        }
        id
    }

    fn children_of(&self, t: TypeId) -> (r: Vec<TypeId>)
        requires
            self.valid(t),
        ensures
            r@ == children(self.types@[t as int]),
    {
        match &self.types[t] {
            TypeInfo::Tuple(v) => copy_ids(v),
            TypeInfo::Struct { args, .. } => copy_ids(args),
            TypeInfo::Enum { args, .. } => copy_ids(args),
            TypeInfo::Array { elem, .. } => vec![*elem],
            TypeInfo::Slice(elem) => vec![*elem],
            TypeInfo::Ref { referenced, .. } => vec![*referenced],
            TypeInfo::Alias { ty } => vec![*ty],
            _ => Vec::new(),
        }
    }

    fn same_shape_exec(&self, a: TypeId, b: TypeId) -> (r: bool)
        requires
            self.valid(a),
            self.valid(b),
        ensures
            r == same_shape(self.types@[a as int], self.types@[b as int]),
    {
        match (&self.types[a], &self.types[b]) {
            (TypeInfo::Tuple(x), TypeInfo::Tuple(y)) => x.len() == y.len(),
            (TypeInfo::Struct { decl: x, args: p }, TypeInfo::Struct { decl: y, args: q }) => *x == *y && p.len() == q.len(),
            (TypeInfo::Enum { decl: x, args: p }, TypeInfo::Enum { decl: y, args: q }) => *x == *y && p.len() == q.len(),
            (TypeInfo::Array { length: x, .. }, TypeInfo::Array { length: y, .. }) => *x == *y,
            (TypeInfo::Slice(_), TypeInfo::Slice(_)) => true,
            (TypeInfo::Ref { to_mutable_value: x, .. }, TypeInfo::Ref { to_mutable_value: y, .. }) => *x == *y,
            (TypeInfo::Alias { .. }, TypeInfo::Alias { .. }) => true,
            (TypeInfo::Unknown, TypeInfo::Unknown) => true,
            (TypeInfo::Never, TypeInfo::Never) => true,
            (TypeInfo::UnknownGeneric { is_from_type_parameter: x }, TypeInfo::UnknownGeneric { is_from_type_parameter: y }) => *x == *y,
            (TypeInfo::Placeholder, TypeInfo::Placeholder) => true,
            (TypeInfo::StringSlice, TypeInfo::StringSlice) => true,
            (TypeInfo::StringArray(x), TypeInfo::StringArray(y)) => *x == *y,
            (TypeInfo::UnsignedInteger(x), TypeInfo::UnsignedInteger(y)) => *x == *y,
            (TypeInfo::Boolean, TypeInfo::Boolean) => true,
            (TypeInfo::B256, TypeInfo::B256) => true,
            (TypeInfo::Numeric, TypeInfo::Numeric) => true,
            (TypeInfo::Contract, TypeInfo::Contract) => true,
            (TypeInfo::ErrorRecovery, TypeInfo::ErrorRecovery) => true,
            _ => false,
        }
    }

    /// The bindings of the generics of `sup` when `sub` is taken for it.
    pub fn from_superset_and_subset(&self, sup: TypeId, sub: TypeId) -> (r: Vec<(TypeId, TypeId)>)
        requires
            self.wf(),
            self.valid(sup),
            self.valid(sub),
        ensures
            r@ == subst_pairs(self.types@, sup, sub),
            forall|i: int| 0 <= i < r@.len() ==> r@[i].1 < self.types@.len(),
        decreases sup + sub,
    {
        proof {
            assert(children_below(self.types@[sup as int], sup as int));
            assert(children_below(self.types@[sub as int], sub as int));
            lemma_children_below(self.types@[sup as int], sup as int);
            lemma_children_below(self.types@[sub as int], sub as int);
        }
        if let TypeInfo::Alias { ty } = &self.types[sup] {
            return self.from_superset_and_subset(*ty, sub);
        }
        if let TypeInfo::Alias { ty } = &self.types[sub] {
            return self.from_superset_and_subset(sup, *ty);
        }
        if self.is_generic(sup) {
            return vec![(sup, sub)];
        }
        if !self.same_shape_exec(sup, sub) {
            return Vec::new();
        }
        let a = self.children_of(sup);
        let b = self.children_of(sub);
        proof {
            let (x, y) = (self.types@[sup as int], self.types@[sub as int]);
            assert(children(x).len() == children(y).len());
        }
        let mut out: Vec<(TypeId, TypeId)> = Vec::new();
        let mut i: usize = 0;
        while i < a.len()
            invariant
                self.wf(),
                self.valid(sup),
                self.valid(sub),
                a@ == children(self.types@[sup as int]),
                b@ == children(self.types@[sub as int]),
                a@.len() == b@.len(),
                forall|k: int| 0 <= k < a@.len() ==> a@[k] < sup,
                forall|k: int| 0 <= k < b@.len() ==> b@[k] < sub,
                i <= a@.len(),
                out@ == child_pairs(self.types@, sup, sub, i as int),
                forall|k: int| 0 <= k < out@.len() ==> out@[k].1 < self.types@.len(),
            decreases a@.len() - i,
        {
            let mut c = self.from_superset_and_subset(a[i], b[i]);
            let ghost prev = out@;
            out.append(&mut c);
            i += 1;
        }
        out
    }

    /// Every type nested inside `t` (not `t` itself), depth first.
    pub fn extract_inner_types(&self, t: TypeId) -> (r: Vec<TypeId>)
        requires
            self.wf(),
            self.valid(t),
        ensures
            r@ == inner_types(self.types@, t),
            forall|i: int| 0 <= i < r@.len() ==> r@[i] < self.types@.len(),
        decreases t,
    {
        proof {
            assert(children_below(self.types@[t as int], t as int));
            lemma_children_below(self.types@[t as int], t as int);
        }
        let kids = self.children_of(t);
        let mut out: Vec<TypeId> = Vec::new();
        let mut i: usize = 0;
        while i < kids.len()
            invariant
                self.wf(),
                self.valid(t),
                kids@ == children(self.types@[t as int]),
                forall|k: int| 0 <= k < kids@.len() ==> kids@[k] < t,
                i <= kids@.len(),
                out@ == inner_types_upto(self.types@, t, i as int),
                forall|k: int| 0 <= k < out@.len() ==> out@[k] < self.types@.len(),
            decreases kids@.len() - i,
        {
            out.push(kids[i]);
            let mut more = self.extract_inner_types(kids[i]);
            out.append(&mut more);
            i += 1;
        }
        out
    }

    fn lookup(m: &Vec<(TypeId, TypeId)>, t: TypeId) -> (r: Option<TypeId>)
        ensures
            r == subst_lookup(m@, t),
            r matches Some(x) ==> exists|i: int| 0 <= i < m@.len() && m@[i].1 == x,
    {
        let mut i: usize = 0;
        assert(m@.subrange(0, m@.len() as int) =~= m@);
        while i < m.len()
            invariant
                i <= m@.len(),
                subst_lookup(m@, t) == subst_lookup(m@.subrange(i as int, m@.len() as int), t),
            decreases m@.len() - i,
        {
            let ghost rest = m@.subrange(i as int, m@.len() as int);
            assert(rest.drop_first() =~= m@.subrange(i as int + 1, m@.len() as int));
            assert(rest[0] == m@[i as int]);
            if m[i].0 == t {
                return Some(m[i].1);
            }
            i += 1;
        }
        assert(m@.subrange(m@.len() as int, m@.len() as int) =~= Seq::<(TypeId, TypeId)>::empty());
        None
    }

    /// Copies `t` with every type that `m` maps replaced by its image; new
    /// types are added to the table, existing ones are left as they are.
    pub fn subst(&mut self, m: &Vec<(TypeId, TypeId)>, t: TypeId) -> (r: TypeId)
        requires
            old(self).wf(),
            old(self).valid(t),
            forall|i: int| 0 <= i < m@.len() ==> m@[i].1 < old(self).types@.len(),
        ensures
            final(self).wf(),
            extends(old(self).types@, final(self).types@),
            r < final(self).types@.len(),
            subst_rel(final(self).types@, m@, t, r),
        decreases t,
    {
        proof {
            assert(children_below(self.types@[t as int], t as int));
            lemma_children_below(self.types@[t as int], t as int);
        }
        if let Some(x) = Self::lookup(m, t) {
            assert(self.types@.subrange(0, self.types@.len() as int) =~= self.types@);
            return x;
        }
        let kids: Vec<TypeId> = match &self.types[t] {
            TypeInfo::Tuple(v) => copy_ids(v),
            TypeInfo::Struct { args, .. } => copy_ids(args),
            TypeInfo::Enum { args, .. } => copy_ids(args),
            TypeInfo::Array { elem, .. } => vec![*elem],
            TypeInfo::Slice(elem) => vec![*elem],
            TypeInfo::Ref { referenced, .. } => vec![*referenced],
            TypeInfo::Alias { ty } => vec![*ty],
            _ => {
                assert(self.types@.subrange(0, self.types@.len() as int) =~= self.types@);
                assert(same_shape(self.types@[t as int], self.types@[t as int]));
                return t;
            },
        };
        assert(kids@ == children(self.types@[t as int]));
        let ghost start = self.types@;
        assert(start.subrange(0, start.len() as int) =~= start);
        let mut out: Vec<TypeId> = Vec::new();
        let mut i: usize = 0;
        while i < kids.len()
            invariant
                self.wf(),
                types_wf(start),
                extends(start, self.types@),
                start == old(self).types@,
                i <= kids@.len(),
                kids@ == children(start[t as int]),
                t < start.len(),
                forall|k: int| 0 <= k < kids@.len() ==> kids@[k] < t,
                forall|j: int| 0 <= j < m@.len() ==> m@[j].1 < start.len(),
                out@.len() == i,
                forall|k: int| 0 <= k < i ==> out@[k] < self.types@.len(),
                forall|k: int| 0 <= k < i ==> subst_rel(self.types@, m@, kids@[k], #[trigger] out@[k]),
            decreases kids@.len() - i,
        {
            let ghost before = self.types@;
            assert(self.valid(kids[i as int]));
            let c = self.subst(m, kids[i]);
            proof {
                lemma_extends_trans(start, before, self.types@);
                assert forall|k: int| 0 <= k < i implies subst_rel(self.types@, m@, kids@[k], #[trigger] out@[k]) by {
                    lemma_subst_rel_stable(before, self.types@, m@, kids@[k], out@[k]);
                }
            }
            out.push(c);
            i += 1;
        }
        let new_t = match &self.types[t] {
            TypeInfo::Tuple(_) => TypeInfo::Tuple(out),
            TypeInfo::Struct { decl, .. } => TypeInfo::Struct { decl: *decl, args: out },
            TypeInfo::Enum { decl, .. } => TypeInfo::Enum { decl: *decl, args: out },
            TypeInfo::Array { length, .. } => TypeInfo::Array { elem: out[0], length: *length },
            TypeInfo::Slice(_) => TypeInfo::Slice(out[0]),
            TypeInfo::Ref { to_mutable_value, .. } => TypeInfo::Ref { to_mutable_value: *to_mutable_value, referenced: out[0] },
            TypeInfo::Alias { .. } => TypeInfo::Alias { ty: out[0] },
            _ => {
                proof {
                    assert(false);
                }
                TypeInfo::Unknown
            },
        };
        proof {
            assert(self.types@[t as int] == start[t as int]);
        }
        let ghost before = self.types@;
        let r = self.insert(new_t);
        proof {
            assert(self.types@.subrange(0, before.len() as int) =~= before);
            lemma_extends_trans(start, before, self.types@);
            assert(self.types@[t as int] == start[t as int]);
            assert(children(self.types@[r as int]) == out@);
            assert forall|k: int| 0 <= k < children(self.types@[t as int]).len() implies subst_rel(
                self.types@,
                m@,
                children(self.types@[t as int])[k],
                children(self.types@[r as int])[k],
            ) by {
                lemma_subst_rel_stable(before, self.types@, m@, kids@[k], out@[k]);
            }
        }
        r
    }

    pub fn get(&self, id: TypeId) -> (t: &TypeInfo)
        requires
            self.valid(id),
        ensures
            *t == self.types@[id as int],
    {
        &self.types[id]
    }

    /// Follows aliases from `id`.
    pub fn get_unaliased_type_id(&self, id: TypeId) -> (r: TypeId)
        requires
            self.wf(),
            self.valid(id),
        ensures
            r == dealias(self.types@, id),
            self.valid(r),
        decreases id,
    {
        proof {
            assert(children_below(self.types@[id as int], id as int));
        }
        match &self.types[id] {
            TypeInfo::Alias { ty } => self.get_unaliased_type_id(*ty),
            _ => id,
        }
    }

    pub fn is_generic(&self, id: TypeId) -> (r: bool)
        requires
            self.valid(id),
        ensures
            r == is_generic(self.types@[id as int]),
    {
        match &self.types[id] {
            TypeInfo::UnknownGeneric { .. } => true,
            TypeInfo::Placeholder => true,
            _ => false,
        }
    }

    fn all_unify(
        &self,
        kind: UnifyKind,
        a: &Vec<TypeId>,
        b: &Vec<TypeId>,
        lb: Ghost<int>,
        rb: Ghost<int>,
    ) -> (res: bool)
        requires
            self.wf(),
            lb@ <= self.types@.len(),
            rb@ <= self.types@.len(),
            forall|k: int| 0 <= k < a@.len() ==> a@[k] < lb@,
            forall|k: int| 0 <= k < b@.len() ==> b@[k] < rb@,
        ensures
            res == (a@.len() == b@.len() && forall|k: int|
                0 <= k < a@.len() ==> unifies(self.types@, kind, a@[k], b@[k])),
        decreases lb@ + rb@, 0int,
    {
        if a.len() != b.len() {
            return false;
        }
        let mut i: usize = 0;
        while i < a.len()
            invariant
                self.wf(),
                lb@ <= self.types@.len(),
                rb@ <= self.types@.len(),
                forall|k: int| 0 <= k < a@.len() ==> a@[k] < lb@,
                forall|k: int| 0 <= k < b@.len() ==> b@[k] < rb@,
                a@.len() == b@.len(),
                i <= a@.len(),
                forall|k: int| 0 <= k < i ==> unifies(self.types@, kind, a@[k], b@[k]),
            decreases a@.len() - i,
        {
            if !self.unify_check(kind, a[i], b[i]) {
                return false;
            }
            i += 1;
        }
        true
    }

    /// Whether the reference layers of `l` and `r` agree in mutability.
    pub fn ref_layers_agree(&self, l: TypeId, r: TypeId) -> (res: bool)
        requires
            self.wf(),
            self.valid(l),
            self.valid(r),
        ensures
            res == ref_layers_agree(self.types@, l, r),
        decreases l + r,
    {
        proof {
            assert(children_below(self.types@[l as int], l as int));
            assert(children_below(self.types@[r as int], r as int));
        }
        match (&self.types[l], &self.types[r]) {
            (TypeInfo::Alias { ty }, _) => self.ref_layers_agree(*ty, r),
            (_, TypeInfo::Alias { ty }) => self.ref_layers_agree(l, *ty),
            (
                TypeInfo::Ref { to_mutable_value: ma, referenced: a },
                TypeInfo::Ref { to_mutable_value: mb, referenced: b },
            ) => *ma == *mb && self.ref_layers_agree(*a, *b),
            _ => true,
        }
    }

    /// The bucket that `id` is filed under.
    pub fn get_type_root_filter(&self, id: TypeId) -> (f: TypeRootFilter)
        requires
            self.wf(),
            self.valid(id),
        ensures
            f == root_filter(self.types@, id),
        decreases id,
    {
        proof {
            assert(children_below(self.types@[id as int], id as int));
        }
        match &self.types[id] {
            TypeInfo::Unknown => TypeRootFilter::Unknown,
            TypeInfo::Never => TypeRootFilter::Never,
            TypeInfo::UnknownGeneric { .. } => TypeRootFilter::Placeholder,
            TypeInfo::Placeholder => TypeRootFilter::Placeholder,
            TypeInfo::StringSlice => TypeRootFilter::StringSlice,
            TypeInfo::StringArray(n) => TypeRootFilter::StringArray(*n),
            TypeInfo::UnsignedInteger(bits) => match bits {
                IntegerBits::Eight => TypeRootFilter::U8,
                IntegerBits::Sixteen => TypeRootFilter::U16,
                IntegerBits::ThirtyTwo => TypeRootFilter::U32,
                IntegerBits::SixtyFour => TypeRootFilter::U64,
                IntegerBits::V256 => TypeRootFilter::U256,
            },
            TypeInfo::Boolean => TypeRootFilter::Bool,
            TypeInfo::B256 => TypeRootFilter::B256,
            TypeInfo::Numeric => TypeRootFilter::U64,
            TypeInfo::Contract => TypeRootFilter::Contract,
            TypeInfo::ErrorRecovery => TypeRootFilter::ErrorRecovery,
            TypeInfo::Tuple(v) => TypeRootFilter::Tuple(v.len()),
            TypeInfo::Struct { decl, .. } => TypeRootFilter::Struct(*decl),
            TypeInfo::Enum { decl, .. } => TypeRootFilter::Enum(*decl),
            TypeInfo::Array { length, .. } => TypeRootFilter::Array(*length),
            TypeInfo::Slice(_) => TypeRootFilter::Slice,
            TypeInfo::Ref { referenced, .. } => self.get_type_root_filter(*referenced),
            TypeInfo::Alias { ty } => self.get_type_root_filter(*ty),
        }
    }

    fn all_concrete(&self, v: &Vec<TypeId>, bound: Ghost<int>) -> (res: bool)
        requires
            self.wf(),
            bound@ <= self.types@.len(),
            forall|k: int| 0 <= k < v@.len() ==> v@[k] < bound@,
        ensures
            res == forall|k: int| 0 <= k < v@.len() ==> is_concrete(self.types@, v@[k]),
        decreases bound@, 0int,
    {
        let mut i: usize = 0;
        while i < v.len()
            invariant
                self.wf(),
                bound@ <= self.types@.len(),
                forall|k: int| 0 <= k < v@.len() ==> v@[k] < bound@,
                i <= v@.len(),
                forall|k: int| 0 <= k < i ==> is_concrete(self.types@, v@[k]),
            decreases v@.len() - i,
        {
            if !self.is_concrete(v[i]) {
                return false;
            }
            i += 1;
        }
        true
    }

    /// Whether nothing inside `id` is unknown, generic or an undecided literal.
    pub fn is_concrete(&self, id: TypeId) -> (res: bool)
        requires
            self.wf(),
            self.valid(id),
        ensures
            res == is_concrete(self.types@, id),
        decreases id, 1int,
    {
        proof {
            assert(children_below(self.types@[id as int], id as int));
        }
        match &self.types[id] {
            TypeInfo::Unknown => false,
            TypeInfo::UnknownGeneric { .. } => false,
            TypeInfo::Placeholder => false,
            TypeInfo::Numeric => false,
            TypeInfo::Tuple(v) => self.all_concrete(v, Ghost(id as int)),
            TypeInfo::Struct { args, .. } => self.all_concrete(args, Ghost(id as int)),
            TypeInfo::Enum { args, .. } => self.all_concrete(args, Ghost(id as int)),
            TypeInfo::Array { elem, .. } => self.is_concrete(*elem),
            TypeInfo::Slice(elem) => self.is_concrete(*elem),
            TypeInfo::Ref { referenced, .. } => self.is_concrete(*referenced),
            TypeInfo::Alias { ty } => self.is_concrete(*ty),
            _ => true,
        }
    }

    /// Whether `l` unifies into `r` under `kind`.
    pub fn unify_check(&self, kind: UnifyKind, l: TypeId, r: TypeId) -> (res: bool)
        requires
            self.wf(),
            self.valid(l),
            self.valid(r),
        ensures
            res == unifies(self.types@, kind, l, r),
        decreases l + r, 1int,
    {
        proof {
            assert(children_below(self.types@[l as int], l as int));
            assert(children_below(self.types@[r as int], r as int));
        }
        let lt = &self.types[l];
        let rt = &self.types[r];
        if let TypeInfo::Alias { ty } = lt {
            return self.unify_check(kind, *ty, r);
        }
        if let TypeInfo::Alias { ty } = rt {
            return self.unify_check(kind, l, *ty);
        }
        if matches!(lt, TypeInfo::ErrorRecovery) || matches!(rt, TypeInfo::ErrorRecovery) {
            return true;
        }
        if self.is_generic(r) {
            return kind != UnifyKind::NonGenericConstraintSubset || self.is_generic(l);
        }
        match (lt, rt) {
            (TypeInfo::Unknown, TypeInfo::Unknown) => true,
            (TypeInfo::Never, TypeInfo::Never) => true,
            (TypeInfo::StringSlice, TypeInfo::StringSlice) => true,
            (TypeInfo::StringArray(a), TypeInfo::StringArray(b)) => *a == *b,
            (TypeInfo::UnsignedInteger(a), TypeInfo::UnsignedInteger(b)) => *a == *b,
            (TypeInfo::Numeric, TypeInfo::Numeric) => true,
            (TypeInfo::Numeric, TypeInfo::UnsignedInteger(_)) => true,
            (TypeInfo::UnsignedInteger(_), TypeInfo::Numeric) => true,
            (TypeInfo::Boolean, TypeInfo::Boolean) => true,
            (TypeInfo::B256, TypeInfo::B256) => true,
            (TypeInfo::Contract, TypeInfo::Contract) => true,
            (TypeInfo::Tuple(a), TypeInfo::Tuple(b)) => {
                self.all_unify(kind, a, b, Ghost(l as int), Ghost(r as int))
            },
            (TypeInfo::Struct { decl: da, args: a }, TypeInfo::Struct { decl: db, args: b }) => {
                *da == *db && self.all_unify(kind, a, b, Ghost(l as int), Ghost(r as int))
            },
            (TypeInfo::Enum { decl: da, args: a }, TypeInfo::Enum { decl: db, args: b }) => {
                *da == *db && self.all_unify(kind, a, b, Ghost(l as int), Ghost(r as int))
            },
            (TypeInfo::Array { elem: a, length: la }, TypeInfo::Array { elem: b, length: lb }) => {
                *la == *lb && self.unify_check(kind, *a, *b)
            },
            (TypeInfo::Slice(a), TypeInfo::Slice(b)) => self.unify_check(kind, *a, *b),
            (
                TypeInfo::Ref { to_mutable_value: ma, referenced: a },
                TypeInfo::Ref { to_mutable_value: mb, referenced: b },
            ) => {
                (*ma == *mb || (kind == UnifyKind::Coercion && *ma && !*mb)) && self.unify_check(
                    kind,
                    *a,
                    *b,
                )
            },
            _ => false,
        }
    }
}

} // verus!
