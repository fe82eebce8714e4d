use crate::ast::ASTRoot;
use crate::tokenizer::{Token, TokenTreeNode};
use vstd::prelude::*;

verus! {

/// The result of parsing a file: its tokens, their bracket structure, and
/// its syntax tree.
pub struct FullParseResult {
    pub tokens: Vec<Token>,
    pub token_hierarchy: Vec<TokenTreeNode>,
    pub ast: ASTRoot,
}

} // verus!
