use crate::dev_aid::syntax_highlighting::{
    ast_mentions, ide_token_info, initial_ide_tokens, lemma_block_brackets_get_its_depth,
    lemma_color_modules_keeps, lemma_mark_node_len, lemma_mark_nodes_append, lemma_mark_nodes_keeps,
    lemma_mark_nodes_len, lemma_nodes_fit_subrange, mark_node, mark_nodes, module_fits,
    module_mentions, node_fits, node_mentions, nodes_fit, nodes_mention, parse_result_fits,
    IDEToken, IDETokenType,
};
use crate::parser::FullParseResult;
use crate::tokenizer::{Span, TokenTreeNode};
use vstd::prelude::*;

verus! {

/// How many times token `p` is a bracket of `node` or of a block nested in it.
pub open spec fn node_bracket_count(node: TokenTreeNode, p: int) -> nat
    decreases node,
{
    match node {
        TokenTreeNode::PlainToken(_) => 0,
        TokenTreeNode::Block(sub, Span(left, right)) => (if left == p {
            1nat
        } else {
            0nat
        }) + (if right == p {
            1nat
        } else {
            0nat
        }) + nodes_bracket_count(sub@, p),
    }
}

/// How many times token `p` is a bracket of a block of `nodes`.
pub open spec fn nodes_bracket_count(nodes: Seq<TokenTreeNode>, p: int) -> nat
    decreases nodes,
{
    if nodes.len() == 0 {
        0
    } else {
        nodes_bracket_count(nodes.drop_last(), p) + node_bracket_count(nodes.last(), p)
    }
}

/// Whether `node` is, or holds `k` blocks deep, a block whose brackets are
/// the tokens `left` and `right`.
pub open spec fn holds_block(node: TokenTreeNode, k: nat, left: usize, right: usize) -> bool
    decreases k, 0nat,
{
    match node {
        TokenTreeNode::PlainToken(_) => false,
        TokenTreeNode::Block(sub, Span(l, r)) => if k == 0 {
            l == left && r == right
        } else {
            block_nested(sub@, (k - 1) as nat, left, right)
        },
    }
}

/// Whether `nodes` holds, `k` blocks deep, a block whose brackets are the
/// tokens `left` and `right` (`k == 0` for a block of `nodes` itself).
pub open spec fn block_nested(nodes: Seq<TokenTreeNode>, k: nat, left: usize, right: usize) -> bool
    decreases k, 1nat,
{
    exists|i: int| 0 <= i < nodes.len() && holds_block(#[trigger] nodes[i], k, left, right)
}

proof fn lemma_count_append(a: Seq<TokenTreeNode>, b: Seq<TokenTreeNode>, p: int)
    ensures
        nodes_bracket_count(a + b, p) == nodes_bracket_count(a, p) + nodes_bracket_count(b, p),
    decreases b.len(),
{
    if b.len() == 0 {
        assert(a + b == a);
    } else {
        lemma_count_append(a, b.drop_last(), p);
        assert((a + b).drop_last() == a + b.drop_last());
        assert((a + b).last() == b.last());
    }
}

/// The count of `p` in `nodes` is that of the node at `i` plus that of the
/// others.
proof fn lemma_count_split(nodes: Seq<TokenTreeNode>, i: int, p: int)
    requires
        0 <= i < nodes.len(),
    ensures
        nodes == nodes.take(i) + seq![nodes[i]] + nodes.skip(i + 1),
        nodes_bracket_count(nodes, p) == nodes_bracket_count(nodes.take(i), p) + node_bracket_count(
            nodes[i],
            p,
        ) + nodes_bracket_count(nodes.skip(i + 1), p),
{
    let single = seq![nodes[i]];
    assert(nodes == nodes.take(i) + single + nodes.skip(i + 1));
    lemma_count_append(nodes.take(i) + single, nodes.skip(i + 1), p);
    lemma_count_append(nodes.take(i), single, p);
    assert(single.drop_last() =~= Seq::<TokenTreeNode>::empty());
    assert(nodes_bracket_count(single.drop_last(), p) == 0);
    assert(single.last() == nodes[i]);
}

/// A node, or nodes, where `p` is never a bracket do not have `p` as a bracket.
proof fn lemma_zero_count_node(node: TokenTreeNode, p: int)
    requires
        node_bracket_count(node, p) == 0,
    ensures
        !node_mentions(node, p),
    decreases node,
{
    if let TokenTreeNode::Block(sub, Span(left, right)) = node {
        assert(decreases_to!(node => sub@));
        lemma_zero_count_nodes(sub@, p);
    }
}

proof fn lemma_zero_count_nodes(nodes: Seq<TokenTreeNode>, p: int)
    requires
        nodes_bracket_count(nodes, p) == 0,
    ensures
        !nodes_mention(nodes, p),
    decreases nodes,
{
    if nodes.len() > 0 {
        lemma_zero_count_nodes(nodes.drop_last(), p);
        lemma_zero_count_node(nodes.last(), p);
        assert forall|i: int| 0 <= i < nodes.len() implies !node_mentions(#[trigger] nodes[i], p) by {
            if i < nodes.len() - 1 {
                assert(nodes.drop_last()[i] == nodes[i]);
            }
        }
    }
}

/// A block nested in `nodes` counts its brackets among those of `nodes`,
/// and its brackets are tokens of a list that `nodes` fits.
proof fn lemma_nested_counts(
    nodes: Seq<TokenTreeNode>,
    k: nat,
    left: usize,
    right: usize,
    depth: int,
    len: int,
)
    requires
        block_nested(nodes, k, left, right),
    ensures
        nodes_bracket_count(nodes, left as int) >= 1,
        nodes_bracket_count(nodes, right as int) >= 1,
        left == right ==> nodes_bracket_count(nodes, left as int) >= 2,
        nodes_fit(nodes, depth, len) ==> left < len && right < len,
    decreases k,
{
    let i = choose|i: int| 0 <= i < nodes.len() && holds_block(#[trigger] nodes[i], k, left, right);
    let x = nodes[i];
    lemma_count_split(nodes, i, left as int);
    lemma_count_split(nodes, i, right as int);
    if let TokenTreeNode::Block(sub, Span(l, r)) = x {
        if k > 0 {
            lemma_nested_counts(sub@, (k - 1) as nat, left, right, depth + 1, len);
            if nodes_fit(nodes, depth, len) {
                assert(node_fits(nodes[i], depth, len));
                assert(nodes_fit(sub@, depth + 1, len));
            }
        } else {
            if nodes_fit(nodes, depth, len) {
                assert(node_fits(nodes[i], depth, len));
            }
        }
    }
}

/// A block of `nodes` at index `i`, whose brackets no other block uses, gets
/// the marks of depth `depth`.
proof fn lemma_top_block_marked(
    s: Seq<IDEToken>,
    depth: int,
    nodes: Seq<TokenTreeNode>,
    i: int,
    left: usize,
    right: usize,
)
    requires
        nodes_fit(nodes, depth, s.len() as int),
        0 <= i < nodes.len(),
        holds_block(nodes[i], 0, left, right),
        nodes_bracket_count(nodes, left as int) == 1,
        nodes_bracket_count(nodes, right as int) == 1,
    ensures
        mark_nodes(s, depth, nodes)[left as int] == (IDEToken {
            typ: IDETokenType::OpenBracket(depth as usize),
        }),
        mark_nodes(s, depth, nodes)[right as int] == (IDEToken {
            typ: IDETokenType::CloseBracket(depth as usize),
        }),
{
    let x = nodes[i];
    let before = nodes.take(i);
    let after = nodes.skip(i + 1);
    lemma_count_split(nodes, i, left as int);
    lemma_count_split(nodes, i, right as int);
    if let TokenTreeNode::Block(sub, Span(l, r)) = x {
        lemma_zero_count_nodes(sub@, left as int);
        lemma_zero_count_nodes(sub@, right as int);
        lemma_zero_count_nodes(before, left as int);
        lemma_zero_count_nodes(before, right as int);
        lemma_zero_count_nodes(after, left as int);
        lemma_zero_count_nodes(after, right as int);
        assert forall|j: int|
            0 <= j < nodes.len() && j != i implies !node_mentions(
            #[trigger] nodes[j],
            left as int,
        ) && !node_mentions(nodes[j], right as int) by {
            if j < i {
                assert(before[j] == nodes[j]);
            } else {
                assert(after[j - i - 1] == nodes[j]);
            }
        }
        lemma_block_brackets_get_its_depth(s, depth, nodes, i, sub, left, right);
    }
}

/// Marking `nodes` at `depth` marks a block nested `k` blocks deep, whose
/// brackets no other block uses, with depth `depth + k`.
proof fn lemma_nested_block_marked(
    s: Seq<IDEToken>,
    depth: int,
    nodes: Seq<TokenTreeNode>,
    k: nat,
    left: usize,
    right: usize,
)
    requires
        nodes_fit(nodes, depth, s.len() as int),
        block_nested(nodes, k, left, right),
        nodes_bracket_count(nodes, left as int) == 1,
        nodes_bracket_count(nodes, right as int) == 1,
    ensures
        mark_nodes(s, depth, nodes)[left as int] == (IDEToken {
            typ: IDETokenType::OpenBracket((depth + k) as usize),
        }),
        mark_nodes(s, depth, nodes)[right as int] == (IDEToken {
            typ: IDETokenType::CloseBracket((depth + k) as usize),
        }),
    decreases k,
{
    let i = choose|i: int| 0 <= i < nodes.len() && holds_block(#[trigger] nodes[i], k, left, right);
    if k == 0 {
        lemma_top_block_marked(s, depth, nodes, i, left, right);
    } else {
        lemma_nested_deeper_marked(s, depth, nodes, i, k, left, right);
    }
}

proof fn lemma_nested_deeper_marked(
    s: Seq<IDEToken>,
    depth: int,
    nodes: Seq<TokenTreeNode>,
    i: int,
    k: nat,
    left: usize,
    right: usize,
)
    requires
        nodes_fit(nodes, depth, s.len() as int),
        0 <= i < nodes.len(),
        k > 0,
        holds_block(nodes[i], k, left, right),
        nodes_bracket_count(nodes, left as int) == 1,
        nodes_bracket_count(nodes, right as int) == 1,
    ensures
        mark_nodes(s, depth, nodes)[left as int] == (IDEToken {
            typ: IDETokenType::OpenBracket((depth + k) as usize),
        }),
        mark_nodes(s, depth, nodes)[right as int] == (IDEToken {
            typ: IDETokenType::CloseBracket((depth + k) as usize),
        }),
    decreases k, 0nat,
{
    let x = nodes[i];
    let before = nodes.take(i);
    let after = nodes.skip(i + 1);
    lemma_count_split(nodes, i, left as int);
    lemma_count_split(nodes, i, right as int);
    if let TokenTreeNode::Block(sub, Span(l, r)) = x {
        let len = s.len() as int;
        assert(node_fits(nodes[i], depth, len));
        assert(nodes_fit(sub@, depth + 1, len));
        lemma_nested_counts(sub@, (k - 1) as nat, left, right, depth + 1, len);
        lemma_nodes_fit_subrange(nodes, depth, len, 0, i);
        lemma_nodes_fit_subrange(nodes, depth, len, i + 1, nodes.len() as int);
        lemma_mark_nodes_append(s, depth, before + seq![x], after);
        lemma_mark_nodes_append(s, depth, before, seq![x]);
        lemma_mark_nodes_len(s, depth, before);
        let s1 = mark_nodes(s, depth, before);
        let single = seq![x];
        assert(single.drop_last() =~= Seq::<TokenTreeNode>::empty());
        assert(mark_nodes(s1, depth, single.drop_last()) == s1);
        assert(single.last() == x);
        let s_open = s1.update(l as int, IDEToken { typ: IDETokenType::OpenBracket(depth as usize) });
        lemma_nested_block_marked(s_open, depth + 1, sub@, (k - 1) as nat, left, right);
        lemma_mark_nodes_len(s_open, depth + 1, sub@);
        lemma_mark_node_len(s1, depth, x);
        let s2 = mark_node(s1, depth, x);
        lemma_zero_count_nodes(after, left as int);
        lemma_zero_count_nodes(after, right as int);
        lemma_mark_nodes_keeps(s2, depth, after, left as int);
        lemma_mark_nodes_keeps(s2, depth, after, right as int);
    }
}

/// Every block of the bracket structure, nested `k` blocks deep (`k == 0`
/// for the blocks of the structure itself), has its opening bracket
/// highlighted as `OpenBracket(k)` and its closing one as `CloseBracket(k)`,
/// provided no other block uses its brackets and no module names them.
pub proof fn lemma_nested_block_brackets_get_depth(
    parsed: FullParseResult,
    k: nat,
    left: usize,
    right: usize,
)
    requires
        parse_result_fits(parsed),
        block_nested(parsed.token_hierarchy@, k, left, right),
        nodes_bracket_count(parsed.token_hierarchy@, left as int) == 1,
        nodes_bracket_count(parsed.token_hierarchy@, right as int) == 1,
        !ast_mentions(parsed.ast, left as int),
        !ast_mentions(parsed.ast, right as int),
    ensures
        ide_token_info(parsed)[left as int].typ == IDETokenType::OpenBracket(k as usize),
        ide_token_info(parsed)[right as int].typ == IDETokenType::CloseBracket(k as usize),
{
    let s0 = initial_ide_tokens(parsed.tokens@);
    lemma_nested_counts(parsed.token_hierarchy@, k, left, right, 0, s0.len() as int);
    lemma_nested_block_marked(s0, 0, parsed.token_hierarchy@, k, left, right);
    lemma_mark_nodes_len(s0, 0, parsed.token_hierarchy@);
    let s1 = mark_nodes(s0, 0, parsed.token_hierarchy@);
    assert forall|i: int| 0 <= i < parsed.ast.modules@.len() implies module_fits(
        #[trigger] parsed.ast.modules@[i],
        s1.len() as int,
    ) && !module_mentions(parsed.ast.modules@[i], left as int) && !module_mentions(
        parsed.ast.modules@[i],
        right as int,
    ) by {}
    lemma_color_modules_keeps(s1, parsed.ast.modules@, left as int);
    lemma_color_modules_keeps(s1, parsed.ast.modules@, right as int);
}

} // verus!
