use crate::ast::{ASTRoot, IdentifierType, LocalOrGlobal, Module};
use crate::parser::FullParseResult;
use crate::tokenizer::{Span, Token, TokenTreeNode, TokenType};
use vstd::prelude::*;

verus! {

/// What an identifier token names, for highlighting.
#[derive(Debug, Clone, Copy, PartialEq, Eq, Structural)]
pub enum IDEIdentifierType {
    Value(IdentifierType),
    Type,
    Interface,
    Unknown,
}

/// How a token is highlighted.
#[derive(Debug, Clone, Copy, PartialEq, Eq, Structural)]
pub enum IDETokenType {
    Comment,
    Keyword,
    Operator,
    TimelineStage,
    Identifier(IDEIdentifierType),
    Number,
    Invalid,
    InvalidBracket,
    /// An opening bracket, with its nesting depth.
    OpenBracket(usize),
    /// A closing bracket, with its nesting depth.
    CloseBracket(usize),
}

#[derive(Debug, Clone, Copy, PartialEq, Eq, Structural)]
pub struct IDEToken {
    pub typ: IDETokenType,
}

/// How a token is highlighted before brackets are matched and names are
/// resolved: every bracket is invalid until the bracket structure pairs it.
pub open spec fn initial_ide_token_type(t: TokenType) -> IDETokenType {
    match t {
        TokenType::Keyword => IDETokenType::Keyword,
        TokenType::Bracket => IDETokenType::InvalidBracket,
        TokenType::Hash => IDETokenType::TimelineStage,
        TokenType::Symbol => IDETokenType::Operator,
        TokenType::Identifier => IDETokenType::Identifier(IDEIdentifierType::Unknown),
        TokenType::Number => IDETokenType::Number,
        TokenType::Comment => IDETokenType::Comment,
        TokenType::Invalid => IDETokenType::Invalid,
    }
}

/// A block of the bracket structure can be marked at `depth` in a token
/// list of length `len`: its brackets are tokens of the list, and neither
/// it nor any block nested in it has a depth that overflows.
pub open spec fn node_fits(node: TokenTreeNode, depth: int, len: int) -> bool
    decreases node,
{
    match node {
        TokenTreeNode::PlainToken(_) => true,
        TokenTreeNode::Block(sub, Span(left, right)) => {
            &&& left < len
            &&& right < len
            &&& depth < usize::MAX
            &&& forall|i: int| 0 <= i < sub@.len() ==> node_fits(#[trigger] sub@[i], depth + 1, len)
        },
    }
}

/// Every node of `nodes` fits at `depth` in a token list of length `len`.
pub open spec fn nodes_fit(nodes: Seq<TokenTreeNode>, depth: int, len: int) -> bool {
    forall|i: int| 0 <= i < nodes.len() ==> node_fits(#[trigger] nodes[i], depth, len)
}

/// The highlighting after marking the brackets of `node` at `depth`, and
/// those of the blocks nested in it one level deeper each.
pub open spec fn mark_node(s: Seq<IDEToken>, depth: int, node: TokenTreeNode) -> Seq<IDEToken>
    decreases node,
{
    match node {
        TokenTreeNode::PlainToken(_) => s,
        TokenTreeNode::Block(sub, Span(left, right)) => mark_nodes(
            s.update(left as int, IDEToken { typ: IDETokenType::OpenBracket(depth as usize) }),
            depth + 1,
            sub@,
        ).update(right as int, IDEToken { typ: IDETokenType::CloseBracket(depth as usize) }),
    }
}

/// The highlighting after marking the nodes of `nodes` at `depth`, in order.
pub open spec fn mark_nodes(s: Seq<IDEToken>, depth: int, nodes: Seq<TokenTreeNode>) -> Seq<
    IDEToken,
>
    decreases nodes,
{
    if nodes.len() == 0 {
        s
    } else {
        mark_node(mark_nodes(s, depth, nodes.drop_last()), depth, nodes.last())
    }
}

pub(crate) proof fn lemma_mark_node_len(s: Seq<IDEToken>, depth: int, node: TokenTreeNode)
    requires
        node_fits(node, depth, s.len() as int),
    ensures
        mark_node(s, depth, node).len() == s.len(),
    decreases node,
{
    if let TokenTreeNode::Block(sub, Span(left, right)) = node {
        let s1 = s.update(left as int, IDEToken { typ: IDETokenType::OpenBracket(depth as usize) });
        assert(decreases_to!(node => sub@));
        lemma_mark_nodes_len(s1, depth + 1, sub@);
    }
}

pub(crate) proof fn lemma_mark_nodes_len(s: Seq<IDEToken>, depth: int, nodes: Seq<TokenTreeNode>)
    requires
        nodes_fit(nodes, depth, s.len() as int),
    ensures
        mark_nodes(s, depth, nodes).len() == s.len(),
    decreases nodes,
{
    if nodes.len() > 0 {
        lemma_mark_nodes_len(s, depth, nodes.drop_last());
        assert(node_fits(nodes[nodes.len() - 1], depth, s.len() as int));
        lemma_mark_node_len(mark_nodes(s, depth, nodes.drop_last()), depth, nodes.last());
    }
}

/// Whether token `p` is a bracket of `node` or of a block nested in it.
pub open spec fn node_mentions(node: TokenTreeNode, p: int) -> bool
    decreases node,
{
    match node {
        TokenTreeNode::PlainToken(_) => false,
        TokenTreeNode::Block(sub, Span(left, right)) => {
            ||| left == p
            ||| right == p
            ||| exists|i: int| 0 <= i < sub@.len() && node_mentions(#[trigger] sub@[i], p)
        },
    }
}

/// Whether token `p` is a bracket of a block of `nodes`.
pub open spec fn nodes_mention(nodes: Seq<TokenTreeNode>, p: int) -> bool {
    exists|i: int| 0 <= i < nodes.len() && node_mentions(#[trigger] nodes[i], p)
}

pub(crate) proof fn lemma_mark_node_keeps(s: Seq<IDEToken>, depth: int, node: TokenTreeNode, p: int)
    requires
        node_fits(node, depth, s.len() as int),
        0 <= p < s.len(),
        !node_mentions(node, p),
    ensures
        mark_node(s, depth, node)[p] == s[p],
    decreases node,
{
    if let TokenTreeNode::Block(sub, Span(left, right)) = node {
        let s1 = s.update(left as int, IDEToken { typ: IDETokenType::OpenBracket(depth as usize) });
        assert(decreases_to!(node => sub@));
        assert(!nodes_mention(sub@, p));
        lemma_mark_nodes_keeps(s1, depth + 1, sub@, p);
        lemma_mark_nodes_len(s1, depth + 1, sub@);
    }
}

pub(crate) proof fn lemma_mark_nodes_keeps(s: Seq<IDEToken>, depth: int, nodes: Seq<TokenTreeNode>, p: int)
    requires
        nodes_fit(nodes, depth, s.len() as int),
        0 <= p < s.len(),
        !nodes_mention(nodes, p),
    ensures
        mark_nodes(s, depth, nodes)[p] == s[p],
    decreases nodes,
{
    if nodes.len() > 0 {
        let init = nodes.drop_last();
        assert(nodes_fit(init, depth, s.len() as int)) by {
            assert forall|i: int| 0 <= i < init.len() implies node_fits(
                #[trigger] init[i],
                depth,
                s.len() as int,
            ) by {
                assert(init[i] == nodes[i]);
            }
        }
        assert(!nodes_mention(init, p)) by {
            if nodes_mention(init, p) {
                let i = choose|i: int| 0 <= i < init.len() && node_mentions(#[trigger] init[i], p);
                assert(node_mentions(nodes[i], p));
            }
        }
        lemma_mark_nodes_keeps(s, depth, init, p);
        lemma_mark_nodes_len(s, depth, init);
        assert(node_fits(nodes[nodes.len() - 1], depth, s.len() as int));
        assert(!node_mentions(nodes[nodes.len() - 1], p));
        lemma_mark_node_keeps(mark_nodes(s, depth, init), depth, nodes.last(), p);
    }
}

pub(crate) proof fn lemma_mark_nodes_append(
    s: Seq<IDEToken>,
    depth: int,
    a: Seq<TokenTreeNode>,
    b: Seq<TokenTreeNode>,
)
    ensures
        mark_nodes(s, depth, a + b) == mark_nodes(mark_nodes(s, depth, a), depth, b),
    decreases b.len(),
{
    if b.len() == 0 {
        assert(a + b == a);
    } else {
        lemma_mark_nodes_append(s, depth, a, b.drop_last());
        assert((a + b).drop_last() == a + b.drop_last());
        assert((a + b).last() == b.last());
    }
}

pub(crate) proof fn lemma_nodes_fit_subrange(nodes: Seq<TokenTreeNode>, depth: int, len: int, i: int, j: int)
    requires
        nodes_fit(nodes, depth, len),
        0 <= i <= j <= nodes.len(),
    ensures
        nodes_fit(nodes.subrange(i, j), depth, len),
{
    assert forall|k: int| 0 <= k < nodes.subrange(i, j).len() implies node_fits(
        #[trigger] nodes.subrange(i, j)[k],
        depth,
        len,
    ) by {
        assert(nodes.subrange(i, j)[k] == nodes[i + k]);
    }
}

/// The two brackets of a block get the depth of the block, provided no other
/// block has either of them as a bracket.
pub proof fn lemma_block_brackets_get_its_depth(
    s: Seq<IDEToken>,
    depth: int,
    nodes: Seq<TokenTreeNode>,
    k: int,
    sub: Vec<TokenTreeNode>,
    left: usize,
    right: usize,
)
    requires
        nodes_fit(nodes, depth, s.len() as int),
        0 <= k < nodes.len(),
        nodes[k] == TokenTreeNode::Block(sub, Span(left, right)),
        left != right,
        !nodes_mention(sub@, left as int),
        !nodes_mention(sub@, right as int),
        forall|j: int|
            0 <= j < nodes.len() && j != k ==> !node_mentions(#[trigger] nodes[j], left as int)
                && !node_mentions(nodes[j], right as int),
    ensures
        mark_nodes(s, depth, nodes)[left as int] == (IDEToken {
            typ: IDETokenType::OpenBracket(depth as usize),
        }),
        mark_nodes(s, depth, nodes)[right as int] == (IDEToken {
            typ: IDETokenType::CloseBracket(depth as usize),
        }),
{
    let before = nodes.take(k);
    let after = nodes.skip(k + 1);
    assert(nodes == before + seq![nodes[k]] + after);
    lemma_mark_nodes_append(s, depth, before + seq![nodes[k]], after);
    lemma_mark_nodes_append(s, depth, before, seq![nodes[k]]);
    lemma_nodes_fit_subrange(nodes, depth, s.len() as int, 0, k);
    lemma_nodes_fit_subrange(nodes, depth, s.len() as int, k + 1, nodes.len() as int);
    lemma_mark_nodes_len(s, depth, before);
    let s1 = mark_nodes(s, depth, before);
    let single = seq![nodes[k]];
    assert(single.drop_last() =~= Seq::<TokenTreeNode>::empty());
    assert(mark_nodes(s1, depth, single.drop_last()) == s1);
    assert(single.last() == nodes[k]);
    assert(mark_nodes(s1, depth, single) == mark_node(s1, depth, nodes[k]));
    assert(node_fits(nodes[k], depth, s.len() as int));
    let s_open = s1.update(left as int, IDEToken { typ: IDETokenType::OpenBracket(depth as usize) });
    assert(decreases_to!(nodes[k] => sub@));
    lemma_mark_nodes_keeps(s_open, depth + 1, sub@, left as int);
    lemma_mark_nodes_len(s_open, depth + 1, sub@);
    lemma_mark_node_len(s1, depth, nodes[k]);
    let s2 = mark_node(s1, depth, nodes[k]);
    assert(!nodes_mention(after, left as int)) by {
        if nodes_mention(after, left as int) {
            let j = choose|j: int| 0 <= j < after.len() && node_mentions(#[trigger] after[j], left as int);
            assert(after[j] == nodes[k + 1 + j]);
        }
    }
    assert(!nodes_mention(after, right as int)) by {
        if nodes_mention(after, right as int) {
            let j = choose|j: int| 0 <= j < after.len() && node_mentions(#[trigger] after[j], right as int);
            assert(after[j] == nodes[k + 1 + j]);
        }
    }
    lemma_mark_nodes_keeps(s2, depth, after, left as int);
    lemma_mark_nodes_keeps(s2, depth, after, right as int);
}

/// Marks the brackets of every block of `token_hierarchy` with their nesting
/// depth, starting at `current_depth`.
fn add_ide_bracket_depths_recursive(
    result: &mut Vec<IDEToken>,
    current_depth: usize,
    token_hierarchy: &Vec<TokenTreeNode>,
)
    requires
        nodes_fit(token_hierarchy@, current_depth as int, old(result)@.len() as int),
    ensures
        final(result)@ == mark_nodes(old(result)@, current_depth as int, token_hierarchy@),
    decreases token_hierarchy@,
{
    let mut i: usize = 0;
    while i < token_hierarchy.len()
        invariant
            i <= token_hierarchy@.len(),
            nodes_fit(token_hierarchy@, current_depth as int, old(result)@.len() as int),
            result@.len() == old(result)@.len(),
            result@ == mark_nodes(
                old(result)@,
                current_depth as int,
                token_hierarchy@.take(i as int),
            ),
        decreases token_hierarchy@.len() - i,
    {
        let ghost before = result@;
        let tok = &token_hierarchy[i];
        assert(token_hierarchy@.take(i + 1).drop_last() == token_hierarchy@.take(i as int));
        assert(node_fits(token_hierarchy@[i as int], current_depth as int, old(result)@.len() as int));
        if let TokenTreeNode::Block(sub_block, Span(left, right)) = tok {
            result.set(*left, IDEToken { typ: IDETokenType::OpenBracket(current_depth) });
            assert(nodes_fit(sub_block@, current_depth + 1, result@.len() as int));
            assert(decreases_to!(token_hierarchy@ => sub_block@)) by {
                assert(decreases_to!(token_hierarchy@ => token_hierarchy@[i as int]));
            }
            add_ide_bracket_depths_recursive(result, current_depth + 1, sub_block);
            proof {
                lemma_mark_nodes_len(
                    before.update(*left as int, IDEToken { typ: IDETokenType::OpenBracket(current_depth) }),
                    current_depth + 1,
                    sub_block@,
                );
            }
            result.set(*right, IDEToken { typ: IDETokenType::CloseBracket(current_depth) });
        }
        assert(result@ == mark_node(before, current_depth as int, token_hierarchy@[i as int]));
        assert(token_hierarchy@.take(i + 1).last() == token_hierarchy@[i as int]);
        i = i + 1;
    }
    assert(token_hierarchy@.take(i as int) == token_hierarchy@);
}

/// How a use of the value `name` in module `m` is highlighted: by the kind
/// of its declaration when it names one of the module's declarations.
pub open spec fn value_ide_type(m: Module, name: LocalOrGlobal) -> IDETokenType {
    IDETokenType::Identifier(
        match name {
            LocalOrGlobal::Local(l) => IDEIdentifierType::Value(
                m.declarations@[l as int].identifier_type,
            ),
            LocalOrGlobal::Global(_) => IDEIdentifierType::Unknown,
        },
    )
}

/// The highlighting after marking the value uses `values` of module `m`, in
/// order.
pub open spec fn color_values(s: Seq<IDEToken>, m: Module, values: Seq<(LocalOrGlobal, usize)>) -> Seq<
    IDEToken,
>
    decreases values.len(),
{
    if values.len() == 0 {
        s
    } else {
        color_values(s, m, values.drop_last()).update(
            values.last().1 as int,
            IDEToken { typ: value_ide_type(m, values.last().0) },
        )
    }
}

/// The highlighting after marking the tokens at `positions` as `typ`.
pub open spec fn color_positions(s: Seq<IDEToken>, positions: Seq<usize>, typ: IDETokenType) -> Seq<
    IDEToken,
>
    decreases positions.len(),
{
    if positions.len() == 0 {
        s
    } else {
        color_positions(s, positions.drop_last(), typ).update(
            positions.last() as int,
            IDEToken { typ },
        )
    }
}

/// The highlighting after marking the tokens of the type paths `refs` as
/// types.
pub open spec fn color_type_references(s: Seq<IDEToken>, refs: Seq<Vec<usize>>) -> Seq<IDEToken>
    decreases refs.len(),
{
    if refs.len() == 0 {
        s
    } else {
        color_positions(
            color_type_references(s, refs.drop_last()),
            refs.last()@,
            IDETokenType::Identifier(IDEIdentifierType::Type),
        )
    }
}

/// The highlighting after marking the names of module `m`: its value uses,
/// then its own name, then its type references.
pub open spec fn color_module(s: Seq<IDEToken>, m: Module) -> Seq<IDEToken> {
    color_type_references(
        color_values(s, m, m.values@).update(
            m.name_position as int,
            IDEToken { typ: IDETokenType::Identifier(IDEIdentifierType::Interface) },
        ),
        m.type_references@,
    )
}

/// The highlighting after marking the names of the modules `modules`, in
/// order.
pub open spec fn color_modules(s: Seq<IDEToken>, modules: Seq<Module>) -> Seq<IDEToken>
    decreases modules.len(),
{
    if modules.len() == 0 {
        s
    } else {
        color_module(color_modules(s, modules.drop_last()), modules.last())
    }
}

/// Every token that module `m` names is one of `len` tokens, and every
/// local value it uses is one of its declarations.
pub open spec fn module_fits(m: Module, len: int) -> bool {
    &&& m.name_position < len
    &&& forall|i: int|
        0 <= i < m.values@.len() ==> {
            &&& (#[trigger] m.values@[i]).1 < len
            &&& (m.values@[i].0 matches LocalOrGlobal::Local(l) ==> l < m.declarations@.len())
        }
    &&& forall|i: int, j: int|
        0 <= i < m.type_references@.len() && 0 <= j < m.type_references@[i]@.len()
            ==> #[trigger] m.type_references@[i]@[j] < len
}

/// Every module of `ast` fits a list of `len` tokens.
pub open spec fn ast_fits(ast: ASTRoot, len: int) -> bool {
    forall|i: int| 0 <= i < ast.modules@.len() ==> module_fits(#[trigger] ast.modules@[i], len)
}

/// Whether module `m` names token `p`: as a value use, as its own name, or
/// in a type path.
pub open spec fn module_mentions(m: Module, p: int) -> bool {
    ||| m.name_position == p
    ||| exists|i: int| 0 <= i < m.values@.len() && (#[trigger] m.values@[i]).1 == p
    ||| exists|i: int, j: int|
        0 <= i < m.type_references@.len() && 0 <= j < m.type_references@[i]@.len()
            && #[trigger] m.type_references@[i]@[j] == p
}

/// Whether a module of `ast` names token `p`.
pub open spec fn ast_mentions(ast: ASTRoot, p: int) -> bool {
    exists|i: int| 0 <= i < ast.modules@.len() && module_mentions(#[trigger] ast.modules@[i], p)
}

pub(crate) proof fn lemma_color_values_keeps(
    s: Seq<IDEToken>,
    m: Module,
    values: Seq<(LocalOrGlobal, usize)>,
    p: int,
)
    requires
        0 <= p < s.len(),
        forall|i: int|
            0 <= i < values.len() ==> (#[trigger] values[i]).1 != p && values[i].1 < s.len(),
    ensures
        color_values(s, m, values).len() == s.len(),
        color_values(s, m, values)[p] == s[p],
    decreases values.len(),
{
    if values.len() > 0 {
        assert(values[values.len() - 1].1 != p);
        let init = values.drop_last();
        assert forall|i: int| 0 <= i < init.len() implies (#[trigger] init[i]).1 != p
            && init[i].1 < s.len() by {
            assert(init[i] == values[i]);
        }
        lemma_color_values_keeps(s, m, init, p);
    }
}

pub(crate) proof fn lemma_color_positions_keeps(
    s: Seq<IDEToken>,
    positions: Seq<usize>,
    typ: IDETokenType,
    p: int,
)
    requires
        0 <= p < s.len(),
        forall|i: int| 0 <= i < positions.len() ==> #[trigger] positions[i] != p && positions[i] < s.len(),
    ensures
        color_positions(s, positions, typ).len() == s.len(),
        color_positions(s, positions, typ)[p] == s[p],
    decreases positions.len(),
{
    if positions.len() > 0 {
        assert(positions[positions.len() - 1] != p);
        let init = positions.drop_last();
        assert forall|i: int| 0 <= i < init.len() implies #[trigger] init[i] != p && init[i]
            < s.len() by {
            assert(init[i] == positions[i]);
        }
        lemma_color_positions_keeps(s, init, typ, p);
    }
}

pub(crate) proof fn lemma_color_type_references_keeps(s: Seq<IDEToken>, refs: Seq<Vec<usize>>, p: int)
    requires
        0 <= p < s.len(),
        forall|i: int, j: int|
            0 <= i < refs.len() && 0 <= j < refs[i]@.len() ==> #[trigger] refs[i]@[j] != p
                && refs[i]@[j] < s.len(),
    ensures
        color_type_references(s, refs).len() == s.len(),
        color_type_references(s, refs)[p] == s[p],
    decreases refs.len(),
{
    if refs.len() > 0 {
        let init = refs.drop_last();
        assert forall|i: int, j: int|
            0 <= i < init.len() && 0 <= j < init[i]@.len() implies #[trigger] init[i]@[j] != p
            && init[i]@[j] < s.len() by {
            assert(init[i] == refs[i]);
        }
        lemma_color_type_references_keeps(s, init, p);
        let last = refs.last()@;
        assert forall|j: int| 0 <= j < last.len() implies #[trigger] last[j] != p && last[j]
            < s.len() by {
            assert(refs[refs.len() - 1]@[j] == last[j]);
        }
        lemma_color_positions_keeps(
            color_type_references(s, init),
            last,
            IDETokenType::Identifier(IDEIdentifierType::Type),
            p,
        );
    }
}

pub(crate) proof fn lemma_color_module_keeps(s: Seq<IDEToken>, m: Module, p: int)
    requires
        0 <= p < s.len(),
        module_fits(m, s.len() as int),
        !module_mentions(m, p),
    ensures
        color_module(s, m).len() == s.len(),
        color_module(s, m)[p] == s[p],
{
    assert forall|i: int| 0 <= i < m.values@.len() implies (#[trigger] m.values@[i]).1 != p
        && m.values@[i].1 < s.len() by {}
    lemma_color_values_keeps(s, m, m.values@, p);
    let s1 = color_values(s, m, m.values@).update(
        m.name_position as int,
        IDEToken { typ: IDETokenType::Identifier(IDEIdentifierType::Interface) },
    );
    assert forall|i: int, j: int|
        0 <= i < m.type_references@.len() && 0 <= j < m.type_references@[i]@.len()
            implies #[trigger] m.type_references@[i]@[j] != p && m.type_references@[i]@[j]
        < s1.len() by {}
    lemma_color_type_references_keeps(s1, m.type_references@, p);
}

pub(crate) proof fn lemma_color_modules_keeps(s: Seq<IDEToken>, modules: Seq<Module>, p: int)
    requires
        0 <= p < s.len(),
        forall|i: int|
            0 <= i < modules.len() ==> module_fits(#[trigger] modules[i], s.len() as int)
                && !module_mentions(modules[i], p),
    ensures
        color_modules(s, modules).len() == s.len(),
        color_modules(s, modules)[p] == s[p],
    decreases modules.len(),
{
    if modules.len() > 0 {
        let init = modules.drop_last();
        assert forall|i: int| 0 <= i < init.len() implies module_fits(
            #[trigger] init[i],
            s.len() as int,
        ) && !module_mentions(init[i], p) by {
            assert(init[i] == modules[i]);
        }
        lemma_color_modules_keeps(s, init, p);
        assert(module_fits(modules[modules.len() - 1], s.len() as int));
        lemma_color_module_keeps(color_modules(s, init), modules.last(), p);
    }
}

/// A token that no block of the bracket structure has as a bracket, and that
/// no module names, is highlighted by its class alone; in particular a
/// bracket that the bracket structure does not pair stays invalid.
pub proof fn lemma_unmentioned_token_keeps_class(parsed: FullParseResult, p: int)
    requires
        parse_result_fits(parsed),
        0 <= p < parsed.tokens@.len(),
        !nodes_mention(parsed.token_hierarchy@, p),
        !ast_mentions(parsed.ast, p),
    ensures
        ide_token_info(parsed)[p].typ == initial_ide_token_type(parsed.tokens@[p].typ),
        ide_token_info(parsed)[p].typ == match parsed.tokens@[p].typ {
            TokenType::Keyword => IDETokenType::Keyword,
            TokenType::Bracket => IDETokenType::InvalidBracket,
            TokenType::Hash => IDETokenType::TimelineStage,
            TokenType::Symbol => IDETokenType::Operator,
            TokenType::Identifier => IDETokenType::Identifier(IDEIdentifierType::Unknown),
            TokenType::Number => IDETokenType::Number,
            TokenType::Comment => IDETokenType::Comment,
            TokenType::Invalid => IDETokenType::Invalid,
        },
{
    let s0 = initial_ide_tokens(parsed.tokens@);
    lemma_mark_nodes_keeps(s0, 0, parsed.token_hierarchy@, p);
    lemma_mark_nodes_len(s0, 0, parsed.token_hierarchy@);
    let s1 = mark_nodes(s0, 0, parsed.token_hierarchy@);
    assert forall|i: int| 0 <= i < parsed.ast.modules@.len() implies module_fits(
        #[trigger] parsed.ast.modules@[i],
        s1.len() as int,
    ) && !module_mentions(parsed.ast.modules@[i], p) by {}
    lemma_color_modules_keeps(s1, parsed.ast.modules@, p);
}

/// Marks every value use of `module` with the kind of what it names.
fn color_module_values(module: &Module, result: &mut Vec<IDEToken>)
    requires
        module_fits(*module, old(result)@.len() as int),
    ensures
        final(result)@ == color_values(old(result)@, *module, module.values@),
        final(result)@.len() == old(result)@.len(),
{
    let mut i: usize = 0;
    while i < module.values.len()
        invariant
            i <= module.values@.len(),
            module_fits(*module, old(result)@.len() as int),
            result@.len() == old(result)@.len(),
            result@ == color_values(old(result)@, *module, module.values@.take(i as int)),
        decreases module.values@.len() - i,
    {
        let (name, position) = module.values[i];
        assert(module.values@.take(i + 1).drop_last() == module.values@.take(i as int));
        assert(module.values@.take(i + 1).last() == module.values@[i as int]);
        assert(module.values@[i as int].1 < old(result)@.len());
        let typ = match name {
            LocalOrGlobal::Local(l) => IDETokenType::Identifier(
                IDEIdentifierType::Value(module.declarations[l].identifier_type),
            ),
            LocalOrGlobal::Global(_) => IDETokenType::Identifier(IDEIdentifierType::Unknown),
        };
        result.set(position, IDEToken { typ });
        i = i + 1;
    }
    assert(module.values@.take(i as int) == module.values@);
}

/// Marks the tokens of every type path of `module` as types.
fn color_module_type_references(module: &Module, result: &mut Vec<IDEToken>)
    requires
        module_fits(*module, old(result)@.len() as int),
    ensures
        final(result)@ == color_type_references(old(result)@, module.type_references@),
        final(result)@.len() == old(result)@.len(),
{
    let ghost refs = module.type_references@;
    let mut i: usize = 0;
    while i < module.type_references.len()
        invariant
            i <= refs.len(),
            refs == module.type_references@,
            module_fits(*module, old(result)@.len() as int),
            result@.len() == old(result)@.len(),
            result@ == color_type_references(old(result)@, refs.take(i as int)),
        decreases refs.len() - i,
    {
        let part_vec = &module.type_references[i];
        assert(refs.take(i + 1).drop_last() == refs.take(i as int));
        assert(refs.take(i + 1).last() == refs[i as int]);
        let ghost before = result@;
        let mut j: usize = 0;
        while j < part_vec.len()
            invariant
                j <= part_vec@.len(),
                *part_vec == refs[i as int],
                i < refs.len(),
                refs == module.type_references@,
                module_fits(*module, old(result)@.len() as int),
                result@.len() == old(result)@.len(),
                result@ == color_positions(
                    before,
                    part_vec@.take(j as int),
                    IDETokenType::Identifier(IDEIdentifierType::Type),
                ),
            decreases part_vec@.len() - j,
        {
            assert(part_vec@.take(j + 1).drop_last() == part_vec@.take(j as int));
            assert(part_vec@.take(j + 1).last() == part_vec@[j as int]);
            assert(module.type_references@[i as int]@[j as int] < old(result)@.len());
            result.set(
                part_vec[j],
                IDEToken { typ: IDETokenType::Identifier(IDEIdentifierType::Type) },
            );
            j = j + 1;
        }
        assert(part_vec@.take(j as int) == part_vec@);
        i = i + 1;
    }
    assert(refs.take(i as int) == refs);
}

/// Marks the names of every module of `ast`: value uses by the kind of what
/// they name, module names as interfaces, type paths as types.
fn walk_name_color(ast: &ASTRoot, result: &mut Vec<IDEToken>)
    requires
        ast_fits(*ast, old(result)@.len() as int),
    ensures
        final(result)@ == color_modules(old(result)@, ast.modules@),
        final(result)@.len() == old(result)@.len(),
{
    let mut i: usize = 0;
    while i < ast.modules.len()
        invariant
            i <= ast.modules@.len(),
            ast_fits(*ast, old(result)@.len() as int),
            result@.len() == old(result)@.len(),
            result@ == color_modules(old(result)@, ast.modules@.take(i as int)),
        decreases ast.modules@.len() - i,
    {
        let module = &ast.modules[i];
        assert(ast.modules@.take(i + 1).drop_last() == ast.modules@.take(i as int));
        assert(ast.modules@.take(i + 1).last() == ast.modules@[i as int]);
        assert(module_fits(*module, old(result)@.len() as int));
        color_module_values(module, result);
        result.set(
            module.name_position,
            IDEToken { typ: IDETokenType::Identifier(IDEIdentifierType::Interface) },
        );
        color_module_type_references(module, result);
        i = i + 1;
    }
    assert(ast.modules@.take(i as int) == ast.modules@);
}

/// The highlighting of `tokens` by their class alone.
pub open spec fn initial_ide_tokens(tokens: Seq<Token>) -> Seq<IDEToken> {
    Seq::new(tokens.len(), |i: int| IDEToken { typ: initial_ide_token_type(tokens[i].typ) })
}

/// The highlighting of a parsed file: tokens by their class, then brackets
/// by the bracket structure, then names by the syntax tree.
pub open spec fn ide_token_info(parsed: FullParseResult) -> Seq<IDEToken> {
    color_modules(
        mark_nodes(initial_ide_tokens(parsed.tokens@), 0, parsed.token_hierarchy@),
        parsed.ast.modules@,
    )
}

/// The bracket structure and the syntax tree of `parsed` refer only to its
/// tokens, and to declarations of the modules that use them.
pub open spec fn parse_result_fits(parsed: FullParseResult) -> bool {
    &&& nodes_fit(parsed.token_hierarchy@, 0, parsed.tokens@.len() as int)
    &&& ast_fits(parsed.ast, parsed.tokens@.len() as int)
}

fn node_fits_check(node: &TokenTreeNode, depth: usize, len: usize) -> (b: bool)
    ensures
        b == node_fits(*node, depth as int, len as int),
    decreases *node,
{
    match node {
        TokenTreeNode::PlainToken(_) => true,
        TokenTreeNode::Block(sub, Span(left, right)) => {
            assert(*node == TokenTreeNode::Block(*sub, Span(*left, *right)));
            if *left >= len || *right >= len || depth == usize::MAX {
                return false;
            }
            let mut i: usize = 0;
            while i < sub.len()
                invariant
                    i <= sub@.len(),
                    depth < usize::MAX,
                    *node == TokenTreeNode::Block(*sub, Span(*left, *right)),
                    forall|j: int| 0 <= j < i ==> node_fits(#[trigger] sub@[j], depth + 1, len as int),
                decreases sub@.len() - i,
            {
                let child = &sub[i];
                assert(decreases_to!(*node => *child)) by {
                    assert(decreases_to!(*node => (*node)->Block_0));
                    assert(decreases_to!((*node)->Block_0 => (*node)->Block_0@));
                    assert(decreases_to!((*node)->Block_0@ => (*node)->Block_0@[i as int]));
                }
                if !node_fits_check(child, depth + 1, len) {
                    assert(!node_fits(sub@[i as int], depth + 1, len as int));
                    assert(!node_fits(*node, depth as int, len as int)) by {
                        assert((*node)->Block_0 == *sub);
                        assert((*node)->Block_0@[i as int] == sub@[i as int]);
                        assert(0 <= i < (*node)->Block_0@.len());
                    }
                    return false;
                }
                i = i + 1;
            }
            true
        },
    }
}

fn module_fits_check(m: &Module, len: usize) -> (b: bool)
    ensures
        b == module_fits(*m, len as int),
{
    if m.name_position >= len {
        return false;
    }
    let mut i: usize = 0;
    while i < m.values.len()
        invariant
            i <= m.values@.len(),
            forall|k: int|
                0 <= k < i ==> {
                    &&& (#[trigger] m.values@[k]).1 < len
                    &&& (m.values@[k].0 matches LocalOrGlobal::Local(l) ==> l
                        < m.declarations@.len())
                },
        decreases m.values@.len() - i,
    {
        let (name, position) = m.values[i];
        if position >= len {
            return false;
        }
        if let LocalOrGlobal::Local(l) = name {
            if l >= m.declarations.len() {
                return false;
            }
        }
        i = i + 1;
    }
    let mut i: usize = 0;
    while i < m.type_references.len()
        invariant
            i <= m.type_references@.len(),
            forall|a: int, b: int|
                0 <= a < i && 0 <= b < m.type_references@[a]@.len()
                    ==> #[trigger] m.type_references@[a]@[b] < len,
        decreases m.type_references@.len() - i,
    {
        let part = &m.type_references[i];
        let mut j: usize = 0;
        while j < part.len()
            invariant
                j <= part@.len(),
                i < m.type_references@.len(),
                *part == m.type_references@[i as int],
                forall|a: int, b: int|
                    0 <= a < i && 0 <= b < m.type_references@[a]@.len()
                        ==> #[trigger] m.type_references@[a]@[b] < len,
                forall|b: int| 0 <= b < j ==> #[trigger] part@[b] < len,
            decreases part@.len() - j,
        {
            if part[j] >= len {
                return false;
            }
            j = j + 1;
        }
        i = i + 1;
    }
    true
}

/// Whether the bracket structure and the syntax tree of `parsed` refer only
/// to its tokens, as [`create_token_ide_info`] requires.
pub fn parse_result_is_consistent(parsed: &FullParseResult) -> (b: bool)
    ensures
        b == parse_result_fits(*parsed),
{
    let len = parsed.tokens.len();
    let mut i: usize = 0;
    while i < parsed.token_hierarchy.len()
        invariant
            len == parsed.tokens@.len(),
            i <= parsed.token_hierarchy@.len(),
            forall|j: int|
                0 <= j < i ==> node_fits(#[trigger] parsed.token_hierarchy@[j], 0, len as int),
        decreases parsed.token_hierarchy@.len() - i,
    {
        if !node_fits_check(&parsed.token_hierarchy[i], 0, len) {
            return false;
        }
        i = i + 1;
    }
    let mut i: usize = 0;
    while i < parsed.ast.modules.len()
        invariant
            len == parsed.tokens@.len(),
            nodes_fit(parsed.token_hierarchy@, 0, len as int),
            i <= parsed.ast.modules@.len(),
            forall|j: int|
                0 <= j < i ==> module_fits(#[trigger] parsed.ast.modules@[j], len as int),
        decreases parsed.ast.modules@.len() - i,
    {
        if !module_fits_check(&parsed.ast.modules[i], len) {
            return false;
        }
        i = i + 1;
    }
    true
}

/// Computes how each token of a parsed file is highlighted.
pub fn create_token_ide_info(parsed: &FullParseResult) -> (result: Vec<IDEToken>)
    requires
        parse_result_fits(*parsed),
    ensures
        result@.len() == parsed.tokens@.len(),
        result@ == ide_token_info(*parsed),
{
    let mut result: Vec<IDEToken> = Vec::new();
    result.reserve(parsed.tokens.len());
    let mut i: usize = 0;
    while i < parsed.tokens.len()
        invariant
            i <= parsed.tokens@.len(),
            result@ == initial_ide_tokens(parsed.tokens@.take(i as int)),
        decreases parsed.tokens@.len() - i,
    {
        let tok_typ = parsed.tokens[i].get_type();
        let initial_typ = match tok_typ {
            TokenType::Keyword => IDETokenType::Keyword,
            // Brackets are invalid until the bracket structure pairs them.
            TokenType::Bracket => IDETokenType::InvalidBracket,
            TokenType::Hash => IDETokenType::TimelineStage,
            TokenType::Symbol => IDETokenType::Operator,
            TokenType::Identifier => IDETokenType::Identifier(IDEIdentifierType::Unknown),
            TokenType::Number => IDETokenType::Number,
            TokenType::Comment => IDETokenType::Comment,
            TokenType::Invalid => IDETokenType::Invalid,
        };
        result.push(IDEToken { typ: initial_typ });
        i = i + 1;
        assert(result@ == initial_ide_tokens(parsed.tokens@.take(i as int)));
    }
    assert(parsed.tokens@.take(i as int) == parsed.tokens@);
    add_ide_bracket_depths_recursive(&mut result, 0, &parsed.token_hierarchy);
    proof {
        lemma_mark_nodes_len(initial_ide_tokens(parsed.tokens@), 0, parsed.token_hierarchy@);
    }
    walk_name_color(&parsed.ast, &mut result);
    result
}

} // verus!
