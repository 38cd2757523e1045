//! Declarations of impl items, held in a store addressed by `DeclId`, and the
//! item handles that an impl block carries.
use vstd::prelude::*;
use crate::types::{TypeEngine, TypeId};

verus! {

/// A source location.
#[derive(Clone, Copy, Debug, PartialEq, Eq, Structural)]
pub struct Span {
    pub source_id: u64,
    pub start: usize,
    pub end: usize,
}

/// Handle of a declaration in a [`DeclEngine`].
pub type DeclId = usize;

/// An item of an impl block, by kind.
#[derive(Clone, Copy, Debug, PartialEq, Eq, Structural)]
pub enum TyTraitItem {
    Fn(DeclId),
    Constant(DeclId),
    Type(DeclId),
}

pub type TyImplItem = TyTraitItem;

/// An item of an impl block that has not been type-checked yet.
#[derive(Clone, Copy, Debug, PartialEq, Eq, Structural)]
pub enum ImplItem {
    Fn(DeclId),
    Constant(DeclId),
    Type(DeclId),
}

/// An impl item as the resolver stores it: parsed or type-checked.
#[derive(Clone, Copy, Debug, PartialEq, Eq, Structural)]
pub enum ResolvedTraitImplItem {
    Parsed(ImplItem),
    Typed(TyImplItem),
}

/// Whether a code block is analysed in its first pass.
#[derive(Clone, Copy, Debug, PartialEq, Eq, Structural)]
pub enum CodeBlockFirstPass {
    Yes,
    No,
}

impl CodeBlockFirstPass {
    pub fn from(value: bool) -> (r: CodeBlockFirstPass)
        ensures
            r == (if value { CodeBlockFirstPass::Yes } else { CodeBlockFirstPass::No }),
    {
        if value {
            CodeBlockFirstPass::Yes
        } else {
            CodeBlockFirstPass::No
        }
    }
}

/// Whether to register a type in the index when no implementation is found.
#[derive(Clone, Copy, Debug, PartialEq, Eq, Structural)]
pub enum TryInsertingTraitImplOnFailure {
    Yes,
    No,
}

/// The declaration behind an impl item.
#[derive(Debug)]
pub struct Decl {
    pub name: String,
    pub span: Span,
    /// A stand-in for a trait's default method, not a real definition.
    pub is_trait_method_dummy: bool,
    /// The `Self` type of the impl block the declaration belongs to.
    pub implementing_for_typeid: Option<TypeId>,
    /// The types of the declaration's signature (parameters, then result).
    pub signature: Vec<TypeId>,
    /// The declaration this one was instantiated from.
    pub parent: Option<DeclId>,
}

impl Decl {
    pub open spec fn types_valid(&self, n: nat) -> bool {
        &&& forall|k: int| 0 <= k < self.signature@.len() ==> self.signature@[k] < n
        &&& (self.implementing_for_typeid matches Some(t) ==> t < n)
    }
}

/// The declaration store.
pub struct DeclEngine {
    pub decls: Vec<Decl>,
}

impl DeclEngine {
    pub open spec fn valid(&self, id: DeclId) -> bool {
        id < self.decls@.len()
    }

    pub fn new() -> (r: DeclEngine)
        ensures
            r.decls@.len() == 0,
    {
        DeclEngine { decls: Vec::new() }
    }

    pub fn insert(&mut self, decl: Decl) -> (id: DeclId)
        ensures
            final(self).decls@ == old(self).decls@.push(decl),
            id == old(self).decls@.len(),
    {
        let id = self.decls.len();
        self.decls.push(decl);
        id
    }

    pub fn get(&self, id: DeclId) -> (d: &Decl)
        requires
            self.valid(id),
        ensures
            *d == self.decls@[id as int],
    {
        &self.decls[id]
    }
}

/// The declaration an item refers to.
pub open spec fn item_decl(item: ResolvedTraitImplItem) -> DeclId {
    match item {
        ResolvedTraitImplItem::Parsed(ImplItem::Fn(d)) => d,
        ResolvedTraitImplItem::Parsed(ImplItem::Constant(d)) => d,
        ResolvedTraitImplItem::Parsed(ImplItem::Type(d)) => d,
        ResolvedTraitImplItem::Typed(TyTraitItem::Fn(d)) => d,
        ResolvedTraitImplItem::Typed(TyTraitItem::Constant(d)) => d,
        ResolvedTraitImplItem::Typed(TyTraitItem::Type(d)) => d,
    }
}

pub open spec fn is_typed_fn(item: ResolvedTraitImplItem) -> bool {
    item matches ResolvedTraitImplItem::Typed(TyTraitItem::Fn(_))
}

impl ResolvedTraitImplItem {
    pub fn decl_id(&self) -> (d: DeclId)
        ensures
            d == item_decl(*self),
    {
        match self {
            ResolvedTraitImplItem::Parsed(ImplItem::Fn(d)) => *d,
            ResolvedTraitImplItem::Parsed(ImplItem::Constant(d)) => *d,
            ResolvedTraitImplItem::Parsed(ImplItem::Type(d)) => *d,
            ResolvedTraitImplItem::Typed(TyTraitItem::Fn(d)) => *d,
            ResolvedTraitImplItem::Typed(TyTraitItem::Constant(d)) => *d,
            ResolvedTraitImplItem::Typed(TyTraitItem::Type(d)) => *d,
        }
    }

    /// The type-checked item; an item still in parsed form cannot reach this
    /// stage of analysis.
    pub fn expect_typed(self) -> (r: TyImplItem)
        requires
            self is Typed,
        ensures
            self == ResolvedTraitImplItem::Typed(r),
    {
        match self {
            ResolvedTraitImplItem::Typed(ty) => ty,
            ResolvedTraitImplItem::Parsed(_) => {
                proof {
                    assert(false);
                }
                TyTraitItem::Fn(0)
            },
        }
    }

    /// The source location of the item's declaration.
    pub fn span(&self, decls: &DeclEngine) -> (s: Span)
        requires
            decls.valid(item_decl(*self)),
        ensures
            s == decls.decls@[item_decl(*self) as int].span,
    {
        decls.get(self.decl_id()).span
    }
}

/// The two stores the resolver consults.
pub struct Engines {
    pub te: TypeEngine,
    pub de: DeclEngine,
}

impl Engines {
    pub open spec fn wf(&self) -> bool {
        &&& self.te.wf()
        &&& forall|d: int| 0 <= d < self.de.decls@.len() ==> #[trigger] self.de.decls@[d].types_valid(
            self.te.types@.len(),
        )
    }
}

} // verus!
