//! The declaration tree as the analyses read it: plain values that a parser
//! front end fills in, one record per top-level item.

use vstd::prelude::*;

verus! {

/// A function of an `impl` block.
#[derive(Debug, Clone)]
pub struct FnDecl {
    /// The function's name.
    pub name: String,
    /// Names that its body calls, as methods or as plain paths, by their
    /// last identifier.
    pub callees: Vec<String>,
    /// Line count of the function's compact token form.
    pub token_lines: usize,
}

/// An `impl` block.
#[derive(Debug, Clone)]
pub struct ImplDecl {
    /// Last identifier of the implementing type, when it is a path.
    pub self_type: Option<String>,
    /// Last identifier of the implemented trait, for a trait impl.
    pub trait_name: Option<String>,
    /// Whether the block is an `unsafe impl`.
    pub is_unsafe: bool,
    /// Its functions, in declaration order.
    pub fns: Vec<FnDecl>,
    /// Line count of the whole block's compact token form.
    pub token_lines: usize,
}

/// A type expression, reduced to the shapes that name other types.
#[derive(Debug)]
pub enum TypeExpr {
    /// A path such as `HashMap<K, V>`: its last identifier and the type
    /// arguments of that last segment.
    Path { name: String, args: Vec<TypeExpr> },
    /// `&T` or `&mut T`.
    Reference(Box<TypeExpr>),
    /// `[T]`.
    Slice(Box<TypeExpr>),
    /// `[T; N]`.
    Array(Box<TypeExpr>),
    /// `*const T` or `*mut T`.
    Ptr(Box<TypeExpr>),
    /// `(A, B, ..)`.
    Tuple(Vec<TypeExpr>),
    /// Any other shape; it names nothing that is imported.
    Other,
}

/// A field of a struct or of an enum variant.
#[derive(Debug)]
pub struct FieldDecl {
    /// Whether the field carries no visibility keyword (private).
    pub is_private: bool,
    /// Its type.
    pub ty: TypeExpr,
}

/// A struct or enum definition.
#[derive(Debug)]
pub struct TypeDecl {
    /// The type's name.
    pub name: String,
    /// Its fields; for an enum, those of every variant in order.
    pub fields: Vec<FieldDecl>,
    /// Line count of the definition's compact token form.
    pub token_lines: usize,
}

/// A top-level item of the source file.
#[derive(Debug)]
pub enum Item {
    /// `struct`.
    Struct(TypeDecl),
    /// `enum`.
    Enum(TypeDecl),
    /// `impl` block, inherent or of a trait.
    Impl(ImplDecl),
    /// `use` declaration, as the text of its tokens.
    Use(String),
    /// `type` alias, by its name.
    TypeAlias(String),
    /// Anything else (functions, constants, macros, ...).
    Other,
}

} // verus!
