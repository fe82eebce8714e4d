use crate::ast::{IdentifierType, LocalOrGlobal, Module};
use crate::dev_aid::syntax_highlighting::{
    color_module, color_modules, color_positions, color_type_references, color_values,
    ide_token_info, initial_ide_tokens, lemma_color_modules_keeps, lemma_color_positions_keeps,
    lemma_mark_nodes_len, mark_nodes, module_fits, module_mentions, parse_result_fits,
    IDEIdentifierType, IDEToken, IDETokenType,
};
use crate::parser::FullParseResult;
use vstd::prelude::*;

verus! {

proof fn lemma_positions_hit(s: Seq<IDEToken>, positions: Seq<usize>, typ: IDETokenType, j: int)
    requires
        0 <= j < positions.len(),
        forall|a: int| 0 <= a < positions.len() ==> #[trigger] positions[a] < s.len(),
    ensures
        color_positions(s, positions, typ).len() == s.len(),
        color_positions(s, positions, typ)[positions[j] as int] == (IDEToken { typ }),
    decreases positions.len(),
{
    let init = positions.drop_last();
    assert forall|a: int| 0 <= a < init.len() implies #[trigger] init[a] < s.len() by {
        assert(init[a] == positions[a]);
    }
    lemma_positions_len(s, init, typ);
    if j < positions.len() - 1 {
        assert(init[j] == positions[j]);
        lemma_positions_hit(s, init, typ, j);
    }
}

proof fn lemma_positions_len(s: Seq<IDEToken>, positions: Seq<usize>, typ: IDETokenType)
    requires
        forall|a: int| 0 <= a < positions.len() ==> #[trigger] positions[a] < s.len(),
    ensures
        color_positions(s, positions, typ).len() == s.len(),
    decreases positions.len(),
{
    if positions.len() > 0 {
        let init = positions.drop_last();
        assert forall|a: int| 0 <= a < init.len() implies #[trigger] init[a] < s.len() by {
            assert(init[a] == positions[a]);
        }
        lemma_positions_len(s, init, typ);
    }
}

/// Every token of every type path is marked as a type.
proof fn lemma_type_references_hit(s: Seq<IDEToken>, refs: Seq<Vec<usize>>, i: int, j: int)
    requires
        0 <= i < refs.len(),
        0 <= j < refs[i]@.len(),
        forall|a: int, b: int|
            0 <= a < refs.len() && 0 <= b < refs[a]@.len() ==> #[trigger] refs[a]@[b] < s.len(),
    ensures
        color_type_references(s, refs).len() == s.len(),
        color_type_references(s, refs)[refs[i]@[j] as int] == (IDEToken {
            typ: IDETokenType::Identifier(IDEIdentifierType::Type),
        }),
    decreases refs.len(),
{
    let typ = IDETokenType::Identifier(IDEIdentifierType::Type);
    let init = refs.drop_last();
    let last = refs.last()@;
    let t = refs[i]@[j];
    assert forall|a: int, b: int|
        0 <= a < init.len() && 0 <= b < init[a]@.len() implies #[trigger] init[a]@[b] < s.len() by {
        assert(init[a] == refs[a]);
    }
    assert forall|b: int| 0 <= b < last.len() implies #[trigger] last[b] < s.len() by {
        assert(refs[refs.len() - 1]@[b] == last[b]);
    }
    lemma_type_references_len(s, init);
    let x = color_type_references(s, init);
    lemma_positions_len(x, last, typ);
    if i == refs.len() - 1 {
        lemma_positions_hit(x, last, typ, j);
    } else {
        assert(init[i] == refs[i]);
        lemma_type_references_hit(s, init, i, j);
        if exists|b: int| 0 <= b < last.len() && last[b] == t {
            let b = choose|b: int| 0 <= b < last.len() && last[b] == t;
            lemma_positions_hit(x, last, typ, b);
        } else {
            assert forall|b: int| 0 <= b < last.len() implies #[trigger] last[b] != t && last[b]
                < x.len() by {}
            lemma_color_positions_keeps(x, last, typ, t as int);
        }
    }
}

proof fn lemma_type_references_len(s: Seq<IDEToken>, refs: Seq<Vec<usize>>)
    requires
        forall|a: int, b: int|
            0 <= a < refs.len() && 0 <= b < refs[a]@.len() ==> #[trigger] refs[a]@[b] < s.len(),
    ensures
        color_type_references(s, refs).len() == s.len(),
    decreases refs.len(),
{
    if refs.len() > 0 {
        let init = refs.drop_last();
        let last = refs.last()@;
        assert forall|a: int, b: int|
            0 <= a < init.len() && 0 <= b < init[a]@.len() implies #[trigger] init[a]@[b]
            < s.len() by {
            assert(init[a] == refs[a]);
        }
        assert forall|b: int| 0 <= b < last.len() implies #[trigger] last[b] < s.len() by {
            assert(refs[refs.len() - 1]@[b] == last[b]);
        }
        lemma_type_references_len(s, init);
        lemma_positions_len(color_type_references(s, init), last, IDETokenType::Identifier(IDEIdentifierType::Type));
    }
}

/// Whether some type path of `m` holds token `t`.
pub open spec fn in_type_path(m: Module, t: int) -> bool {
    exists|i: int, j: int|
        0 <= i < m.type_references@.len() && 0 <= j < m.type_references@[i]@.len()
            && #[trigger] m.type_references@[i]@[j] == t
}

proof fn lemma_type_references_miss(s: Seq<IDEToken>, m: Module, t: int)
    requires
        0 <= t < s.len(),
        module_fits(m, s.len() as int),
        !in_type_path(m, t),
    ensures
        color_type_references(s, m.type_references@).len() == s.len(),
        color_type_references(s, m.type_references@)[t] == s[t],
{
    assert forall|a: int, b: int|
        0 <= a < m.type_references@.len() && 0 <= b < m.type_references@[a]@.len()
            implies #[trigger] m.type_references@[a]@[b] != t && m.type_references@[a]@[b]
        < s.len() by {}
    crate::dev_aid::syntax_highlighting::lemma_color_type_references_keeps(
        s,
        m.type_references@,
        t,
    );
}

/// The value use at `i` marks its token, unless a later use of the same
/// token overrides it.
proof fn lemma_values_hit(s: Seq<IDEToken>, m: Module, values: Seq<(LocalOrGlobal, usize)>, i: int)
    requires
        0 <= i < values.len(),
        forall|a: int| 0 <= a < values.len() ==> (#[trigger] values[a]).1 < s.len(),
        forall|a: int| i < a < values.len() ==> (#[trigger] values[a]).1 != values[i].1,
    ensures
        color_values(s, m, values).len() == s.len(),
        color_values(s, m, values)[values[i].1 as int] == (IDEToken {
            typ: crate::dev_aid::syntax_highlighting::value_ide_type(m, values[i].0),
        }),
    decreases values.len(),
{
    let init = values.drop_last();
    assert forall|a: int| 0 <= a < init.len() implies (#[trigger] init[a]).1 < s.len() by {
        assert(init[a] == values[a]);
    }
    lemma_values_len(s, m, init);
    if i < values.len() - 1 {
        assert forall|a: int| i < a < init.len() implies (#[trigger] init[a]).1 != init[i].1 by {
            assert(init[a] == values[a]);
        }
        assert(init[i] == values[i]);
        lemma_values_hit(s, m, init, i);
        assert(values[values.len() - 1].1 != values[i].1);
    }
}

proof fn lemma_values_len(s: Seq<IDEToken>, m: Module, values: Seq<(LocalOrGlobal, usize)>)
    requires
        forall|a: int| 0 <= a < values.len() ==> (#[trigger] values[a]).1 < s.len(),
    ensures
        color_values(s, m, values).len() == s.len(),
    decreases values.len(),
{
    if values.len() > 0 {
        let init = values.drop_last();
        assert forall|a: int| 0 <= a < init.len() implies (#[trigger] init[a]).1 < s.len() by {
            assert(init[a] == values[a]);
        }
        lemma_values_len(s, m, init);
    }
}

proof fn lemma_color_modules_append(s: Seq<IDEToken>, a: Seq<Module>, b: Seq<Module>)
    ensures
        color_modules(s, a + b) == color_modules(color_modules(s, a), b),
    decreases b.len(),
{
    if b.len() == 0 {
        assert(a + b == a);
    } else {
        lemma_color_modules_append(s, a, b.drop_last());
        assert((a + b).drop_last() == a + b.drop_last());
        assert((a + b).last() == b.last());
    }
}

proof fn lemma_color_modules_len(s: Seq<IDEToken>, modules: Seq<Module>)
    requires
        forall|i: int| 0 <= i < modules.len() ==> module_fits(#[trigger] modules[i], s.len() as int),
    ensures
        color_modules(s, modules).len() == s.len(),
    decreases modules.len(),
{
    if modules.len() > 0 {
        let init = modules.drop_last();
        assert forall|i: int| 0 <= i < init.len() implies module_fits(
            #[trigger] init[i],
            s.len() as int,
        ) by {
            assert(init[i] == modules[i]);
        }
        lemma_color_modules_len(s, init);
        let m = modules.last();
        assert(module_fits(modules[modules.len() - 1], s.len() as int));
        let x = color_modules(s, init);
        lemma_values_len(x, m, m.values@);
        let y = color_values(x, m, m.values@).update(
            m.name_position as int,
            IDEToken { typ: IDETokenType::Identifier(IDEIdentifierType::Interface) },
        );
        lemma_type_references_len(y, m.type_references@);
    }
}

/// Token `t`, which no module after module `k` names, ends up as module `k`
/// marks it.
proof fn lemma_last_module_decides(parsed: FullParseResult, k: int, t: int)
    requires
        parse_result_fits(parsed),
        0 <= k < parsed.ast.modules@.len(),
        0 <= t < parsed.tokens@.len(),
        forall|k2: int|
            k < k2 < parsed.ast.modules@.len() ==> !module_mentions(
                #[trigger] parsed.ast.modules@[k2],
                t,
            ),
    ensures
        ({
            let s0 = initial_ide_tokens(parsed.tokens@);
            let s1 = mark_nodes(s0, 0, parsed.token_hierarchy@);
            let before = color_modules(s1, parsed.ast.modules@.take(k));
            &&& before.len() == parsed.tokens@.len()
            &&& ide_token_info(parsed)[t] == color_module(before, parsed.ast.modules@[k])[t]
        }),
{
    let mods = parsed.ast.modules@;
    let s0 = initial_ide_tokens(parsed.tokens@);
    lemma_mark_nodes_len(s0, 0, parsed.token_hierarchy@);
    let s1 = mark_nodes(s0, 0, parsed.token_hierarchy@);
    let head = mods.take(k);
    let single = seq![mods[k]];
    let after = mods.skip(k + 1);
    assert(mods == head + single + after);
    lemma_color_modules_append(s1, head + single, after);
    lemma_color_modules_append(s1, head, single);
    assert forall|i: int| 0 <= i < head.len() implies module_fits(
        #[trigger] head[i],
        s1.len() as int,
    ) by {
        assert(head[i] == mods[i]);
    }
    lemma_color_modules_len(s1, head);
    let before = color_modules(s1, head);
    assert(single.drop_last() =~= Seq::<Module>::empty());
    assert(color_modules(before, single.drop_last()) == before);
    assert(single.last() == mods[k]);
    assert(color_modules(before, single) == color_module(before, mods[k]));
    assert forall|i: int| 0 <= i < single.len() implies module_fits(
        #[trigger] single[i],
        before.len() as int,
    ) by {}
    lemma_color_modules_len(before, single);
    let mid = color_module(before, mods[k]);
    assert forall|i: int| 0 <= i < after.len() implies module_fits(
        #[trigger] after[i],
        mid.len() as int,
    ) && !module_mentions(after[i], t) by {
        assert(after[i] == mods[k + 1 + i]);
    }
    lemma_color_modules_keeps(mid, after, t);
}

/// Every token of every type path of a module is highlighted as a type,
/// unless a later module names it.
pub proof fn lemma_type_path_tokens_are_types(parsed: FullParseResult, k: int, i: int, j: int)
    requires
        parse_result_fits(parsed),
        0 <= k < parsed.ast.modules@.len(),
        0 <= i < parsed.ast.modules@[k].type_references@.len(),
        0 <= j < parsed.ast.modules@[k].type_references@[i]@.len(),
        forall|k2: int|
            k < k2 < parsed.ast.modules@.len() ==> !module_mentions(
                #[trigger] parsed.ast.modules@[k2],
                parsed.ast.modules@[k].type_references@[i]@[j] as int,
            ),
    ensures
        ide_token_info(parsed)[parsed.ast.modules@[k].type_references@[i]@[j] as int].typ
            == IDETokenType::Identifier(IDEIdentifierType::Type),
{
    let m = parsed.ast.modules@[k];
    let t = m.type_references@[i]@[j] as int;
    assert(module_fits(m, parsed.tokens@.len() as int));
    lemma_last_module_decides(parsed, k, t);
    let s0 = initial_ide_tokens(parsed.tokens@);
    let s1 = mark_nodes(s0, 0, parsed.token_hierarchy@);
    let before = color_modules(s1, parsed.ast.modules@.take(k));
    lemma_values_len(before, m, m.values@);
    let y = color_values(before, m, m.values@).update(
        m.name_position as int,
        IDEToken { typ: IDETokenType::Identifier(IDEIdentifierType::Interface) },
    );
    lemma_type_references_hit(y, m.type_references@, i, j);
}

/// The name of a module is highlighted as an interface, unless one of its own
/// type paths or a later module names that token.
pub proof fn lemma_module_name_is_interface(parsed: FullParseResult, k: int)
    requires
        parse_result_fits(parsed),
        0 <= k < parsed.ast.modules@.len(),
        !in_type_path(parsed.ast.modules@[k], parsed.ast.modules@[k].name_position as int),
        forall|k2: int|
            k < k2 < parsed.ast.modules@.len() ==> !module_mentions(
                #[trigger] parsed.ast.modules@[k2],
                parsed.ast.modules@[k].name_position as int,
            ),
    ensures
        ide_token_info(parsed)[parsed.ast.modules@[k].name_position as int].typ
            == IDETokenType::Identifier(IDEIdentifierType::Interface),
{
    let m = parsed.ast.modules@[k];
    let t = m.name_position as int;
    assert(module_fits(m, parsed.tokens@.len() as int));
    lemma_last_module_decides(parsed, k, t);
    let s0 = initial_ide_tokens(parsed.tokens@);
    let s1 = mark_nodes(s0, 0, parsed.token_hierarchy@);
    let before = color_modules(s1, parsed.ast.modules@.take(k));
    lemma_values_len(before, m, m.values@);
    let y = color_values(before, m, m.values@).update(
        t,
        IDEToken { typ: IDETokenType::Identifier(IDEIdentifierType::Interface) },
    );
    lemma_type_references_miss(y, m, t);
}

/// A use of a value is highlighted by what it names: a local name by the
/// kind of its declaration, a global one as unknown; unless a later use in
/// the same module, the module's name, one of its type paths or a later
/// module names that token.
pub proof fn lemma_value_use_colored_by_declaration(parsed: FullParseResult, k: int, i: int)
    requires
        parse_result_fits(parsed),
        0 <= k < parsed.ast.modules@.len(),
        0 <= i < parsed.ast.modules@[k].values@.len(),
        forall|a: int|
            i < a < parsed.ast.modules@[k].values@.len() ==> (
            #[trigger] parsed.ast.modules@[k].values@[a]).1
                != parsed.ast.modules@[k].values@[i].1,
        parsed.ast.modules@[k].name_position != parsed.ast.modules@[k].values@[i].1,
        !in_type_path(parsed.ast.modules@[k], parsed.ast.modules@[k].values@[i].1 as int),
        forall|k2: int|
            k < k2 < parsed.ast.modules@.len() ==> !module_mentions(
                #[trigger] parsed.ast.modules@[k2],
                parsed.ast.modules@[k].values@[i].1 as int,
            ),
    ensures
        ide_token_info(parsed)[parsed.ast.modules@[k].values@[i].1 as int].typ
            == IDETokenType::Identifier(
            match parsed.ast.modules@[k].values@[i].0 {
                LocalOrGlobal::Local(l) => IDEIdentifierType::Value(
                    parsed.ast.modules@[k].declarations@[l as int].identifier_type,
                ),
                LocalOrGlobal::Global(_) => IDEIdentifierType::Unknown,
            },
        ),
{
    let m = parsed.ast.modules@[k];
    let t = m.values@[i].1 as int;
    assert(module_fits(m, parsed.tokens@.len() as int));
    lemma_last_module_decides(parsed, k, t);
    let s0 = initial_ide_tokens(parsed.tokens@);
    let s1 = mark_nodes(s0, 0, parsed.token_hierarchy@);
    let before = color_modules(s1, parsed.ast.modules@.take(k));
    lemma_values_hit(before, m, m.values@, i);
    let y = color_values(before, m, m.values@).update(
        m.name_position as int,
        IDEToken { typ: IDETokenType::Identifier(IDEIdentifierType::Interface) },
    );
    lemma_type_references_miss(y, m, t);
}

} // verus!
