use crate::span::Span;
use vstd::prelude::*;

verus! {

/// The type of an expression.
pub struct Ty {
    /// The type as it is written in a signature.
    pub text: String,
    /// Whether a type parameter occurs in it.
    pub has_params: bool,
}

/// What a path leads to.
#[derive(PartialEq, Eq, Structural, Debug, Copy, Clone)]
pub enum Def {
    Mod,
    Struct,
    Union,
    Enum,
    Variant,
    Trait,
    TyAlias,
    TyForeign,
    Fn,
    Const,
    Static,
    StructCtor,
    VariantCtor,
    /// Something that cannot be imported, such as a local variable or a method.
    Other,
}

/// A path, with the names that lead from the root of the crate to its definition.
pub struct Path {
    pub def: Def,
    pub components: Vec<String>,
    /// What stands in the generic arguments.
    pub children: Vec<Node>,
}

/// An expression. If it is a call then its first child is the function that is called, and the
/// others are the arguments.
pub struct Expr {
    pub span: Span,
    pub ty: Ty,
    pub is_call: bool,
    pub children: Vec<Node>,
}

/// The code of a function, a closure, a constant or an array length.
pub struct Body {
    pub id: usize,
    pub children: Vec<Node>,
}

/// Where the generic parameters of an item and the predicates of its where clause are written.
pub struct Generics {
    pub span: Span,
    pub where_predicates: Vec<Span>,
}

/// An item; it has no generics if it is of a kind that cannot have any.
pub struct Item {
    pub generics: Option<Generics>,
    pub children: Vec<Node>,
}

/// A part of a crate. Its children are the parts directly within it, in the order in which the
/// compiler visits them.
pub enum Node {
    Item(Item),
    Body(Body),
    Expr(Expr),
    Path(Path),
}

impl Expr {
    /// The children that are candidates for placeholders: not the function that is called.
    pub open spec fn operands(self) -> Seq<Node> {
        if self.is_call && self.children@.len() > 0 {
            self.children@.subrange(1, self.children@.len() as int)
        } else {
            self.children@
        }
    }
}

} // verus!
