//! Diagnostics raised by the resolver. All of them are recoverable: the
//! resolver records them and carries on.
use vstd::prelude::*;
use crate::decls::Span;
use crate::types::TypeId;

verus! {

/// The kind of item named in a duplicate-definition diagnostic.
#[derive(Clone, Copy, Debug, PartialEq, Eq, Structural)]
pub enum DeclKindName {
    Method,
    Constant,
    Type,
}

#[derive(Debug)]
pub enum CompileError {
    /// Two implementations of one trait for overlapping types.
    ConflictingImplsForTraitAndType {
        trait_name: String,
        type_implementing_for: TypeId,
        existing_impl_span: Span,
        second_impl_span: Span,
    },
    /// An item name defined twice for an overlapping type and trait.
    DuplicateDeclDefinedForType {
        decl_kind: DeclKindName,
        decl_name: String,
        type_implementing_for: TypeId,
        span: Span,
    },
    /// Two methods of one name inside a single impl block.
    MultipleDefinitionsOfName { name: String, span: Span },
    /// A required bound is not implemented for the type.
    TraitConstraintNotSatisfied {
        type_id: TypeId,
        trait_name: String,
        type_arguments: Vec<TypeId>,
        span: Span,
    },
    /// A symbol is provided by more than one visible implementation.
    MultipleApplicableItemsInScope {
        item_name: String,
        as_traits: Vec<String>,
        item_paths: Vec<Span>,
    },
    /// No visible implementation provides the symbol.
    SymbolNotFound { name: String },
}

/// Marks a result whose diagnostics went to the handler.
#[derive(Clone, Copy, Debug, PartialEq, Eq, Structural)]
pub struct ErrorEmitted;

/// A diagnostic as a value.
pub enum ErrorView {
    ConflictingImplsForTraitAndType {
        trait_name: Seq<char>,
        type_implementing_for: TypeId,
        existing_impl_span: Span,
        second_impl_span: Span,
    },
    DuplicateDeclDefinedForType {
        decl_kind: DeclKindName,
        decl_name: Seq<char>,
        type_implementing_for: TypeId,
        span: Span,
    },
    MultipleDefinitionsOfName { name: Seq<char>, span: Span },
    TraitConstraintNotSatisfied {
        type_id: TypeId,
        trait_name: Seq<char>,
        type_arguments: Seq<TypeId>,
        span: Span,
    },
    MultipleApplicableItemsInScope {
        item_name: Seq<char>,
        as_traits: Seq<Seq<char>>,
        item_paths: Seq<Span>,
    },
    SymbolNotFound { name: Seq<char> },
}

pub open spec fn error_view(e: CompileError) -> ErrorView {
    match e {
        CompileError::ConflictingImplsForTraitAndType {
            trait_name,
            type_implementing_for,
            existing_impl_span,
            second_impl_span,
        } => ErrorView::ConflictingImplsForTraitAndType {
            trait_name: trait_name@,
            type_implementing_for,
            existing_impl_span,
            second_impl_span,
        },
        CompileError::DuplicateDeclDefinedForType { decl_kind, decl_name, type_implementing_for, span } =>
            ErrorView::DuplicateDeclDefinedForType {
            decl_kind,
            decl_name: decl_name@,
            type_implementing_for,
            span,
        },
        CompileError::MultipleDefinitionsOfName { name, span } => ErrorView::MultipleDefinitionsOfName {
            name: name@,
            span,
        },
        CompileError::TraitConstraintNotSatisfied { type_id, trait_name, type_arguments, span } =>
            ErrorView::TraitConstraintNotSatisfied {
            type_id,
            trait_name: trait_name@,
            type_arguments: type_arguments@,
            span,
        },
        CompileError::MultipleApplicableItemsInScope { item_name, as_traits, item_paths } =>
            ErrorView::MultipleApplicableItemsInScope {
            item_name: item_name@,
            as_traits: as_traits@.map_values(|s: String| s@),
            item_paths: item_paths@,
        },
        CompileError::SymbolNotFound { name } => ErrorView::SymbolNotFound { name: name@ },
    }
}

pub open spec fn errors_view(es: Seq<CompileError>) -> Seq<ErrorView> {
    es.map_values(|e: CompileError| error_view(e))
}

/// Collects diagnostics.
pub struct Handler {
    pub errors: Vec<CompileError>,
}

impl Handler {
    pub open spec fn view(&self) -> Seq<ErrorView> {
        errors_view(self.errors@)
    }

    pub fn new() -> (h: Handler)
        ensures
            h.view() == Seq::<ErrorView>::empty(),
    {
        let h = Handler { errors: Vec::new() };
        assert(h.view() =~= Seq::<ErrorView>::empty());
        h
    }

    pub fn emit_err(&mut self, e: CompileError) -> (r: ErrorEmitted)
        ensures
            final(self).view() == old(self).view().push(error_view(e)),
    {
        let ghost prev = self.errors@;
        self.errors.push(e);
        assert(self.view() =~= errors_view(prev).push(error_view(e)));
        ErrorEmitted
    }

    pub fn len(&self) -> (n: usize)
        ensures
            n == self.view().len(),
    {
        self.errors.len()
    }
}

} // verus!
