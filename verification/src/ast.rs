use vstd::prelude::*;

verus! {

/// How a declared name is used in a module.
#[derive(Debug, Clone, Copy, PartialEq, Eq, Structural)]
pub enum IdentifierType {
    Input,
    Output,
    Local,
    State,
}

/// What a name in a module refers to: a declaration of the module (by its
/// index), or something global.
#[derive(Debug, Clone, Copy, PartialEq, Eq, Structural)]
pub enum LocalOrGlobal {
    Local(usize),
    Global(usize),
}

/// A name declared in a module.
#[derive(Debug, Clone, Copy, PartialEq, Eq, Structural)]
pub struct SignalDeclaration {
    pub identifier_type: IdentifierType,
}

/// What highlighting reads of a parsed module. Positions are token indices.
pub struct Module {
    /// The token of the module's name.
    pub name_position: usize,
    pub declarations: Vec<SignalDeclaration>,
    /// Every use of a value in the module, with the token that names it, in
    /// the order in which the module's body is walked.
    pub values: Vec<(LocalOrGlobal, usize)>,
    /// For each reference to a type, the tokens of its path.
    pub type_references: Vec<Vec<usize>>,
}

/// All modules of a parsed file.
pub struct ASTRoot {
    pub modules: Vec<Module>,
}

} // verus!
