//! The data model: candidate entities, linked entities and relationship edges.

use vstd::prelude::*;
use crate::span::Span;
use crate::text::path_model;

verus! {

/// The closed classification of declared structure.
#[derive(Clone, Copy, Debug, PartialEq, Eq, Structural)]
pub enum EntityKind {
    Module,
    Type,
    Trait,
    Function,
    Implementation,
    Enum,
    EnumVariant,
    Field,
}

impl EntityKind {
    /// Kinds whose span opens an enclosing context for the declarations inside it.
    pub open spec fn is_scope(self) -> bool {
        self is Module || self is Type || self is Trait || self is Implementation || self is Enum
    }

    /// Kinds whose functions are their methods.
    pub open spec fn holds_methods(self) -> bool {
        self is Implementation || self is Type
    }

    pub fn opens_scope(&self) -> (r: bool)
        ensures
            r == self.is_scope(),
    {
        match self {
            EntityKind::Module => true,
            EntityKind::Type => true,
            EntityKind::Trait => true,
            EntityKind::Implementation => true,
            EntityKind::Enum => true,
            EntityKind::Function => false,
            EntityKind::EnumVariant => false,
            EntityKind::Field => false,
        }
    }

    pub fn has_methods(&self) -> (r: bool)
        ensures
            r == self.holds_methods(),
    {
        match self {
            EntityKind::Implementation => true,
            EntityKind::Type => true,
            _ => false,
        }
    }
}

/// The modifier set of a declaration.
#[derive(Clone, Copy, Debug, PartialEq, Eq, Structural)]
pub struct Modifiers {
    pub public: bool,
    pub is_async: bool,
    pub mutable_self: bool,
    pub is_static: bool,
}

impl Modifiers {
    pub open spec fn empty() -> Modifiers {
        Modifiers { public: false, is_async: false, mutable_self: false, is_static: false }
    }

    pub fn none() -> (r: Modifiers)
        ensures
            r == Modifiers::empty(),
    {
        Modifiers { public: false, is_async: false, mutable_self: false, is_static: false }
    }
}

/// One recognized declaration as the reducer found it: unlinked, with the raw text
/// of its signature, and with its nesting recorded only as a depth and a span.
#[derive(Debug)]
pub struct CandidateEntity {
    pub kind: EntityKind,
    pub name: Vec<u8>,
    pub signature: Vec<u8>,
    pub span: Span,
    pub depth: usize,
    pub modifiers: Modifiers,
    /// For an implementation: the name of the type it is for. Empty otherwise.
    pub target: Vec<u8>,
    /// For an implementation of a trait: the trait's name.
    pub interface: Option<Vec<u8>>,
}

pub struct CandidateModel {
    pub kind: EntityKind,
    pub name: Seq<u8>,
    pub signature: Seq<u8>,
    pub span: Span,
    pub depth: nat,
    pub modifiers: Modifiers,
    pub target: Seq<u8>,
    pub interface: Option<Seq<u8>>,
}

impl View for CandidateEntity {
    type V = CandidateModel;

    open spec fn view(&self) -> CandidateModel {
        CandidateModel {
            kind: self.kind,
            name: self.name@,
            signature: self.signature@,
            span: self.span,
            depth: self.depth as nat,
            modifiers: self.modifiers,
            target: self.target@,
            interface: match self.interface {
                Some(name) => Some(name@),
                None => None,
            },
        }
    }
}

pub open spec fn candidate_models(candidates: Seq<CandidateEntity>) -> Seq<CandidateModel> {
    Seq::new(candidates.len(), |i: int| candidates[i]@)
}

/// One declared structural element of a source unit.
#[derive(Debug)]
pub struct Entity {
    pub kind: EntityKind,
    pub name: Vec<u8>,
    /// Names of the enclosing scopes, outermost first.
    pub qualified_path: Vec<Vec<u8>>,
    /// The signature with its white space normalized.
    pub signature: Vec<u8>,
    pub span: Span,
    pub modifiers: Modifiers,
    /// Number of enclosing scopes.
    pub depth: usize,
    /// Set on an implementation whose target type is not declared in its scope.
    pub unresolved_target: bool,
    /// Set on an implementation whose trait is not declared in its scope.
    pub unresolved_interface: bool,
    /// The stable identifier; empty until identities are assigned.
    pub identifier: Vec<u8>,
}

pub struct EntityModel {
    pub kind: EntityKind,
    pub name: Seq<u8>,
    pub qualified_path: Seq<Seq<u8>>,
    pub signature: Seq<u8>,
    pub span: Span,
    pub modifiers: Modifiers,
    pub depth: nat,
    pub unresolved_target: bool,
    pub unresolved_interface: bool,
    pub identifier: Seq<u8>,
}

impl View for Entity {
    type V = EntityModel;

    open spec fn view(&self) -> EntityModel {
        EntityModel {
            kind: self.kind,
            name: self.name@,
            qualified_path: path_model(self.qualified_path@),
            signature: self.signature@,
            span: self.span,
            modifiers: self.modifiers,
            depth: self.depth as nat,
            unresolved_target: self.unresolved_target,
            unresolved_interface: self.unresolved_interface,
            identifier: self.identifier@,
        }
    }
}

pub open spec fn entity_models(entities: Seq<Entity>) -> Seq<EntityModel> {
    Seq::new(entities.len(), |i: int| entities[i]@)
}

#[derive(Clone, Copy, Debug, PartialEq, Eq, Structural)]
pub enum RelationshipKind {
    /// From an implementation to the type it is for, or to the trait it fulfils.
    Implements,
    /// From an enclosing scope to a declaration directly inside it.
    Contains,
    /// From a function to the implementation or type in whose body it stands.
    DeclaresMethodOf,
}

/// A relationship between two entities of one extraction, each given by its position
/// in the extraction's entity list.
#[derive(Clone, Copy, Debug, PartialEq, Eq, Structural)]
pub struct RelationshipEdge {
    pub kind: RelationshipKind,
    pub from: usize,
    pub to: usize,
}

} // verus!
