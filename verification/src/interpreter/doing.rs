//! What each kind of step does to the values, the variables and the collections of a Script.

use vstd::prelude::*;
use crate::interpreter::heap::kind_of;
use crate::ast::symbol_of;
use crate::interpreter::heap::slot_bytes;
use crate::interpreter::heap::entries_bytes;
use vstd::utf8::encode_utf8;
use crate::ast::AccessKind;
use crate::ast::AccessLink;
use crate::ast::BinaryAt;
use crate::ast::BinaryOperator;
use crate::ast::BlockId;
use crate::ast::ExprId;
use crate::ast::ExpressionKind;
use crate::ast::Function;
use crate::ast::Literal;
use crate::ast::Program;
use crate::ast::StatementKind;
use crate::diagnostics::Category;
use crate::interpreter::detach::DetachFailure;
use crate::interpreter::detach::detach_list;
use crate::interpreter::detach::detach_value;
use crate::interpreter::heap::HeapView;
use crate::interpreter::heap::RtView;
use crate::interpreter::heap::SlotId;
use crate::interpreter::heap::SlotView;
use crate::interpreter::lasting::lemma_allocated;
use crate::interpreter::semantics::Chain;
use crate::interpreter::semantics::Frame;
use crate::interpreter::semantics::LoopFrame;
use crate::interpreter::semantics::LoopKind;
use crate::interpreter::semantics::MachineView;
use crate::interpreter::semantics::StmtAt;
use crate::interpreter::semantics::StopView;
use crate::interpreter::semantics::Turn;
use crate::interpreter::semantics::chain_links;
use crate::interpreter::semantics::detached_arguments;
use crate::interpreter::semantics::literal_entries;
use crate::interpreter::semantics::statement_at;
use crate::interpreter::value::ValueView;
use crate::number::EXACT_INTEGER;
use crate::number::exact_integer;
use crate::number::is_zero_bits;
use crate::table::distinct;
use crate::table::has_key;
use crate::table::law_put_get;
use crate::table::lemma_put_distinct;
use crate::table::value_of;

verus! {

/// A literal is its own value.
pub proof fn law_literals(p: Program, m: MachineView, id: ExprId, literal: Literal)
    requires
        p.expr(id).kind == ExpressionKind::Literal(literal),
    ensures
        m.step(p, Frame::Eval(id)) matches Turn::Go(after) && after.frames == m.frames && after.scope == m.scope
            && after.values.len() == m.values.len() + 1 && after.values.drop_last() == m.values && (match literal {
            Literal::Null => after.values.last() == RtView::Null,
            Literal::Bool(b) => after.values.last() == RtView::Bool(b),
            Literal::Number(n) => after.values.last() == RtView::Number(n.bits()),
            Literal::String(s) => after.values.last() matches RtView::String(text, _) && text == s@,
        }),
{
    if let Turn::Go(after) = m.step(p, Frame::Eval(id)) {
        assert(after.values.drop_last() =~= m.values);
    }
}

/// A name reads as what the innermost scope that binds it holds, and as nothing when none does: then the
/// Script fails at the name.
pub proof fn law_names_read(p: Program, m: MachineView, id: ExprId, scope: SlotId)
    requires
        p.expr(id).kind is Identifier,
        m.scope == scope,
    ensures
        match m.heap.lookup(scope, p.expr(id).kind->Identifier_0.name@) {
            Some(value) => m.step(p, Frame::Eval(id)) matches Turn::Go(after) && after.values == m.values.push(value)
                && after.frames == m.frames && after.heap == m.heap,
            None => m.step(p, Frame::Eval(id)) matches Turn::Fail(d) && d.category == Category::Reference && d.code
                == "reference.undeclared_identifier"@ && d.span == p.expr(id).kind->Identifier_0.span,
        },
        m.heap.slots.len() > 0 && has_key(m.heap.bindings(scope), p.expr(id).kind->Identifier_0.name@) ==> m.heap.lookup(
            scope,
            p.expr(id).kind->Identifier_0.name@,
        ) == value_of(m.heap.bindings(scope), p.expr(id).kind->Identifier_0.name@),
{
}

/// A `let` binds its name to the value of its initializer in the scope that runs, and changes no other name
/// and no other slot.
pub proof fn law_let_binds(p: Program, m: MachineView, at: StmtAt, other: Seq<char>, x: SlotId)
    requires
        statement_at(p, at).kind is Let,
        m.values.len() > 0,
        m.heap.slot(m.scope) is Scope,
        distinct(m.heap.bindings(m.scope)),
    ensures
        m.step(p, Frame::Statement(at)) matches Turn::Go(after) && after.frames == m.frames.push(Frame::Declare(at)).push(
            Frame::Eval(statement_at(p, at).kind->Let_initializer),
        ) && after.values == m.values,
        m.step(p, Frame::Declare(at)) matches Turn::Go(after) && after.values == m.values.drop_last() && after.frames
            == m.frames && after.scope == m.scope && after.heap.lookup(m.scope, statement_at(p, at).kind->Let_name.name@)
            == Some(m.values.last()) && (other != statement_at(p, at).kind->Let_name.name@ ==> value_of(
            after.heap.bindings(m.scope),
            other,
        ) == value_of(m.heap.bindings(m.scope), other)) && (x != m.scope ==> after.heap.slot(x) == m.heap.slot(x)),
{
    crate::interpreter::laws::law_declared_is_found(
        m.heap,
        m.scope,
        statement_at(p, at).kind->Let_name.name@,
        m.values.last(),
        other,
    );
}

/// An assignment to a name changes the innermost binding of it, and no other slot; a name that nothing
/// declares is refused.
pub proof fn law_assignment_to_a_name(p: Program, m: MachineView, target: ExprId, x: SlotId)
    requires
        p.expr(target).kind is Identifier,
        m.values.len() > 0,
        m.heap.resolve(m.scope, p.expr(target).kind->Identifier_0.name@) matches Some(owner) ==> distinct(
            m.heap.bindings(owner),
        ),
    ensures
        match m.heap.resolve(m.scope, p.expr(target).kind->Identifier_0.name@) {
            Some(owner) => m.step(p, Frame::AssignName(target)) matches Turn::Go(after) && after.values
                == m.values.drop_last() && after.frames == m.frames && after.heap.lookup(
                m.scope,
                p.expr(target).kind->Identifier_0.name@,
            ) == Some(m.values.last()) && (x != owner ==> after.heap.slot(x) == m.heap.slot(x)),
            None => m.step(p, Frame::AssignName(target)) matches Turn::Fail(d) && d.category == Category::Reference && d.code
                == "reference.undeclared_assignment"@ && d.span == p.expr(target).kind->Identifier_0.span,
        },
{
    let name = p.expr(target).kind->Identifier_0.name@;
    if m.heap.resolve(m.scope, name) is Some {
        crate::interpreter::laws::law_assigned_is_found(m.heap, m.scope, name, m.values.last());
    }
}

/// The operands of a binary operator are evaluated from left to right: first the left one, and the right one
/// only once the left one's value is there, unless that settles an `&&` or `||`, which then is that value.
pub proof fn law_operands_in_order(p: Program, m: MachineView, id: ExprId, left: ExprId, operator: BinaryAt, right: ExprId)
    requires
        p.expr(id).kind == (ExpressionKind::Binary { left, operator, right }),
        m.values.len() > 0,
    ensures
        m.step(p, Frame::Eval(id)) matches Turn::Go(after) && after.frames == m.frames.push(
            Frame::BinaryRight { left, operator, right },
        ).push(Frame::Eval(left)) && after.values == m.values,
        m.step(p, Frame::BinaryRight { left, operator, right }) matches Turn::Go(after) && after.heap == m.heap && (if (
        operator.kind == BinaryOperator::And && !m.heap.truthy(m.values.last())) || (operator.kind == BinaryOperator::Or
            && m.heap.truthy(m.values.last())) {
            after.frames == m.frames && after.values == m.values
        } else if operator.kind == BinaryOperator::And || operator.kind == BinaryOperator::Or {
            after.frames == m.frames.push(Frame::Eval(right)) && after.values == m.values.drop_last()
        } else {
            after.frames == m.frames.push(Frame::Binary { left, operator, right }).push(Frame::Eval(right)) && after.values
                == m.values
        }),
{
}

/// What counts as true: everything but `null`, `false`, zero, the empty text, and collections with nothing in
/// them.
pub proof fn law_truth(heap: HeapView, value: RtView)
    ensures
        heap.truthy(value) <==> !(value is Null || value == RtView::Bool(false) || (value matches RtView::Number(n)
            && is_zero_bits(n)) || (value matches RtView::String(text, _) && text.len() == 0) || (value matches RtView::Array(id)
            && heap.elements(id).len() == 0) || (value matches RtView::Object(id) && heap.entries(id).len() == 0)),
{
}

/// The elements of an array literal are evaluated in order, and the array holds their values in that order.
pub proof fn law_array_literal(p: Program, m: MachineView, id: ExprId, elements: Seq<ExprId>, count: usize, x: SlotId)
    requires
        p.expr(id).kind matches ExpressionKind::Array { elements: e, .. } && e@ == elements,
        count == elements.len(),
        count <= m.values.len(),
        m.heap.wf(),
        m.heap.slots.len() < usize::MAX,
    ensures
        m.step(p, Frame::Eval(id)) matches Turn::Go(after) && after.frames.len() == m.frames.len() + 1 + elements.len()
            && after.frames.take(m.frames.len() as int) == m.frames && after.frames[m.frames.len() as int]
            == (Frame::BuildArray { array: id, count }) && forall|i: int|
            0 <= i < elements.len() ==> after.frames[after.frames.len() - 1 - i] == Frame::Eval(#[trigger] elements[i]),
        m.step(p, Frame::BuildArray { array: id, count }) matches Turn::Go(after) && after.frames == m.frames
            && after.values.len() == m.values.len() - count + 1 && after.values.drop_last() == m.values.take(
            m.values.len() - count,
        ) && (after.values.last() matches RtView::Array(made) && m.heap.slot(made) is Free && after.heap.elements(made).len()
            == count && (forall|i: int|
            0 <= i < count ==> #[trigger] after.heap.elements(made)[i] == m.values[m.values.len() - count + i]) && (x != made
            ==> after.heap.slot(x) == m.heap.slot(x))),
{
    if let Turn::Go(after) = m.step(p, Frame::Eval(id)) {
        assert(after.frames.take(m.frames.len() as int) =~= m.frames);
    }
    if let Turn::Go(after) = m.step(p, Frame::BuildArray { array: id, count }) {
        let slot = SlotView::Array { items: m.tops(count as int), version: 0 };
        lemma_allocated(m.heap, slot);
        assert(after.values.drop_last() =~= m.values.take(m.values.len() - count));
    }
}

proof fn lemma_literal(p: Program, id: ExprId, keys: Seq<Seq<char>>, values: Seq<RtView>, n: int, key: Seq<char>)
    requires
        p.expr(id).kind matches ExpressionKind::Object { entries, .. } && entries@.len() == keys.len() && forall|i: int|
            0 <= i < keys.len() ==> keys[i] == (#[trigger] entries@[i]).key.name@,
        0 <= n <= keys.len(),
        keys.len() == values.len(),
    ensures
        distinct(literal_entries(p, id, values, n)),
        match value_of(literal_entries(p, id, values, n), key) {
            Some(value) => exists|i: int|
                0 <= i < n && #[trigger] keys[i] == key && values[i] == value && forall|j: int|
                    i < j < n ==> #[trigger] keys[j] != key,
            None => forall|i: int| 0 <= i < n ==> #[trigger] keys[i] != key,
        },
    decreases n,
{
    if n > 0 {
        lemma_literal(p, id, keys, values, n - 1, key);
        let before = literal_entries(p, id, values, n - 1);
        if let ExpressionKind::Object { entries, .. } = p.expr(id).kind {
            assert(entries@[n - 1].key.name@ == keys[n - 1]);
        }
        lemma_put_distinct(before, keys[n - 1], values[n - 1]);
        law_put_get(before, keys[n - 1], values[n - 1], key);
        if keys[n - 1] == key {
            assert(values[n - 1] == value_of(literal_entries(p, id, values, n), key)->0);
        } else if value_of(before, key) is Some {
            let i = choose|i: int|
                0 <= i < n - 1 && #[trigger] keys[i] == key && Some(values[i]) == value_of(before, key) && forall|j: int|
                    i < j < n - 1 ==> #[trigger] keys[j] != key;
            assert(keys[i] == key);
        }
    }
}

/// The values of an object literal are evaluated in order, and the object holds under each of its keys the
/// value that was written last for it, and nothing else.
pub proof fn law_object_literal(p: Program, m: MachineView, id: ExprId, keys: Seq<Seq<char>>, key: Seq<char>)
    requires
        p.expr(id).kind matches ExpressionKind::Object { entries, .. } && entries@.len() == keys.len() && forall|i: int|
            0 <= i < keys.len() ==> keys[i] == (#[trigger] entries@[i]).key.name@,
        keys.len() <= m.values.len(),
        m.heap.wf(),
        m.heap.slots.len() < usize::MAX,
    ensures
        m.step(p, Frame::Eval(id)) matches Turn::Go(after) && after.frames.len() == m.frames.len() + 1 + keys.len()
            && after.frames[m.frames.len() as int] == Frame::BuildObject(id) && (p.expr(id).kind matches ExpressionKind::Object {
            entries,
            ..
        } && forall|i: int|
            0 <= i < keys.len() ==> after.frames[after.frames.len() - 1 - i] == Frame::Eval((#[trigger] entries@[i]).value)),
        m.step(p, Frame::BuildObject(id)) matches Turn::Go(after) && after.values.len() == m.values.len() - keys.len() + 1 && (
        after.values.last() matches RtView::Object(made) && m.heap.slot(made) is Free && match after.heap.object_get(made, key) {
            Some(value) => exists|i: int|
                0 <= i < keys.len() && #[trigger] keys[i] == key && m.values[m.values.len() - keys.len() + i] == value && forall|
                    j: int,
                |
                    i < j < keys.len() ==> #[trigger] keys[j] != key,
            None => forall|i: int| 0 <= i < keys.len() ==> #[trigger] keys[i] != key,
        }),
{
    if let ExpressionKind::Object { entries, .. } = p.expr(id).kind {
        let values = m.tops(keys.len() as int);
        lemma_literal(p, id, keys, values, keys.len() as int, key);
        let made = literal_entries(p, id, values, values.len() as int);
        lemma_allocated(m.heap, SlotView::Object { entries: made, version: 0 });
        if let Turn::Go(after) = m.step(p, Frame::BuildObject(id)) {
            assert(after.heap.entries(m.heap.next()) == made);
            if value_of(made, key) is Some {
                let i = choose|i: int|
                    0 <= i < keys.len() && #[trigger] keys[i] == key && Some(values[i]) == value_of(made, key) && forall|j: int|
                        i < j < keys.len() ==> #[trigger] keys[j] != key;
                assert(m.values[m.values.len() - keys.len() + i] == values[i]);
            }
        }
    }
}

/// A property of an object is what the object holds under its name, or `null`; the rest of the chain then
/// applies to that. On `null` the whole chain is `null` behind `?.`, and fails otherwise; nothing else has
/// properties.
pub proof fn law_property(p: Program, m: MachineView, chain: Chain, index: usize, in_target: bool)
    requires
        index < chain_links(p, chain).len(),
        chain_links(p, chain)[index as int].kind is Property,
        m.values.len() > 0,
    ensures
        m.values.last() matches RtView::Object(object) ==> (m.step(p, Frame::Link { chain, index, in_target }) matches Turn::Go(
            after,
        ) && after.frames == m.frames.push(Frame::Link { chain, index: (index + 1) as usize, in_target }) && after.heap
            == m.heap && after.values == m.values.drop_last().push(
            match value_of(m.heap.entries(object), chain_links(p, chain)[index as int].kind->Property_0.name@) {
                Some(value) => value,
                None => RtView::Null,
            },
        )),
        m.values.last() is Null && chain_links(p, chain)[index as int].optional ==> m.step(
            p,
            Frame::Link { chain, index, in_target },
        ) == Turn::Go(m),
        m.values.last() is Null && !chain_links(p, chain)[index as int].optional ==> (m.step(
            p,
            Frame::Link { chain, index, in_target },
        ) matches Turn::Fail(d) && d.code == "reference.null_access"@ && d.span == chain_links(p, chain)[index as int].span),
        !(m.values.last() is Null) && !(m.values.last() is Object) ==> (m.step(p, Frame::Link { chain, index, in_target })
            matches Turn::Fail(d) && d.code == "type.invalid_property_access"@ && d.span == chain_links(
            p,
            chain,
        )[index as int].span),
{
}

/// An element is read by its position in an array, counted from zero, and by its key in an object; what is not
/// there is `null`, and only arrays and objects have elements.
pub proof fn law_element(p: Program, m: MachineView, chain: Chain, index: usize, in_target: bool)
    requires
        index < chain_links(p, chain).len(),
        chain_links(p, chain)[index as int].kind is Index,
        m.values.len() > 1,
    ensures
        match (m.values[m.values.len() - 2], m.values.last()) {
            (RtView::Array(array), RtView::Number(n)) => m.step(p, Frame::IndexRead { chain, index, in_target }) matches Turn::Go(
                after,
            ) && after.frames == m.frames.push(Frame::Link { chain, index: (index + 1) as usize, in_target }) && after.heap
                == m.heap && after.values == m.values.drop_last().drop_last().push(
                match exact_integer(n) {
                    Some(i) => if 0 <= i < m.heap.elements(array).len() && i < EXACT_INTEGER {
                        m.heap.elements(array)[i]
                    } else {
                        RtView::Null
                    },
                    None => RtView::Null,
                },
            ),
            (RtView::Object(object), RtView::String(key, _)) => m.step(p, Frame::IndexRead { chain, index, in_target })
                matches Turn::Go(after) && after.frames == m.frames.push(
                Frame::Link { chain, index: (index + 1) as usize, in_target },
            ) && after.heap == m.heap && after.values == m.values.drop_last().drop_last().push(
                match value_of(m.heap.entries(object), key) {
                    Some(value) => value,
                    None => RtView::Null,
                },
            ),
            _ => m.step(p, Frame::IndexRead { chain, index, in_target }) matches Turn::Fail(d) && d.code
                == "type.invalid_index"@,
        },
{
}

/// A store into an array changes the element at the position, or appends at the length, and changes no other
/// element and no other slot; no other position can be written.
pub proof fn law_store_in_array(p: Program, m: MachineView, target: ExprId, array: SlotId, n: u64, i: int, x: SlotId)
    requires
        p.expr(target).kind matches ExpressionKind::Access { links, .. } && links@.len() > 0 && links@.last().kind is Index,
        m.values.len() > 2,
        m.values[m.values.len() - 3] == RtView::Array(array),
        m.values[m.values.len() - 2] == RtView::Number(n),
        m.heap.slot(array) is Array,
        exact_integer(n) == Some(i),
        i < EXACT_INTEGER,
    ensures
        0 <= i <= m.heap.elements(array).len() ==> (m.step(p, Frame::AssignMember(target)) matches Turn::Go(after)
            && after.frames == m.frames && after.values == m.values.take(m.values.len() - 3) && (x != array ==> after.heap.slot(
            x,
        ) == m.heap.slot(x)) && after.heap.elements(array) == if i < m.heap.elements(array).len() {
            m.heap.elements(array).update(i, m.values.last())
        } else {
            m.heap.elements(array).push(m.values.last())
        }),
        i < 0 || i > m.heap.elements(array).len() ==> !(m.step(p, Frame::AssignMember(target)) is Go),
{
    if let Turn::Go(after) = m.step(p, Frame::AssignMember(target)) {
        assert(m.values.drop_last().drop_last().drop_last() =~= m.values.take(m.values.len() - 3));
    }
}

/// A store into an object puts the value under the key: it reads back, every other key reads as before, and no
/// other slot changes.
pub proof fn law_store_in_object(p: Program, m: MachineView, target: ExprId, object: SlotId, key: Seq<char>, other: Seq<char>, x: SlotId)
    requires
        m.heap.slot(object) is Object,
        distinct(m.heap.entries(object)),
        p.expr(target).kind matches ExpressionKind::Access { links, .. } && links@.len() > 0 && match links@.last().kind {
            AccessKind::Property(name) => name.name@ == key && m.values.len() > 1 && m.values[m.values.len() - 2]
                == RtView::Object(object),
            AccessKind::Index { .. } => m.values.len() > 2 && m.values[m.values.len() - 3] == RtView::Object(object) && (
            m.values[m.values.len() - 2] matches RtView::String(k, _) && k == key),
            AccessKind::Call { .. } => false,
        },
    ensures
        m.step(p, Frame::AssignMember(target)) matches Turn::Go(after) && after.frames == m.frames && after.heap.object_get(
            object,
            key,
        ) == Some(m.values.last()) && (other != key ==> after.heap.object_get(object, other) == m.heap.object_get(
            object,
            other,
        )) && (x != object ==> after.heap.slot(x) == m.heap.slot(x)),
{
    law_put_get(m.heap.entries(object), key, m.values.last(), other);
}

/// An `if` tests its conditions in order, and runs the body of the first that is true, or else its `else`, and
/// nothing when there is none.
pub proof fn law_if_takes_a_branch(p: Program, m: MachineView, at: StmtAt, index: usize)
    requires
        statement_at(p, at).kind is If,
        m.values.len() > 0,
        index < statement_at(p, at).kind->If_branches@.len(),
    ensures
        m.step(p, Frame::Statement(at)) matches Turn::Go(after) && after.frames == m.frames.push(
            Frame::Branch { at, index: 0 },
        ).push(Frame::Eval(statement_at(p, at).kind->If_branches@[0].condition.expression)) && after.values == m.values,
        m.heap.truthy(m.values.last()) ==> (m.step(p, Frame::Branch { at, index }) matches Turn::Go(after) && after.values
            == m.values.drop_last() && runs_block(p, m, after, statement_at(p, at).kind->If_branches@[index as int].body)),
        !m.heap.truthy(m.values.last()) ==> (m.step(p, Frame::Branch { at, index }) matches Turn::Go(after) && after.values
            == m.values.drop_last() && if index + 1 < statement_at(p, at).kind->If_branches@.len() {
            after.frames == m.frames.push(Frame::Branch { at, index: (index + 1) as usize }).push(
                Frame::Eval(statement_at(p, at).kind->If_branches@[index + 1].condition.expression),
            ) && after.scope == m.scope && after.heap == m.heap
        } else {
            match statement_at(p, at).kind->If_else_branch {
                Some(branch) => runs_block(p, m, after, branch.body),
                None => after.frames == m.frames && after.scope == m.scope && after.heap == m.heap,
            }
        }),
{
    if let StatementKind::If { branches, else_branch } = statement_at(p, at).kind {
        lemma_runs_block(p, m.pop(), branches@[index as int].body);
        if let Some(branch) = else_branch {
            lemma_runs_block(p, m.pop(), branch.body);
        }
    }
}

/// Whether a machine is about to run the statements of a block, from the first on, inside a scope of its own
/// that it leaves for the scope that ran before.
pub open spec fn runs_block(p: Program, m: MachineView, after: MachineView, body: BlockId) -> bool {
    let n = p.statements_of(Some(body)).len();
    &&& after.frames.len() == m.frames.len() + 1 + n
    &&& after.frames.take(m.frames.len() as int) == m.frames
    &&& after.frames[m.frames.len() as int] == Frame::ExitScope(m.scope)
    &&& forall|i: int|
        0 <= i < n ==> (#[trigger] after.frames[after.frames.len() - 1 - i]) == Frame::Statement(
            StmtAt { block: Some(body), index: i as usize },
        )
}

proof fn lemma_runs_block(p: Program, m: MachineView, body: BlockId)
    ensures
        runs_block(p, m, m.entered(p, body), body),
        m.entered(p, body).values == m.values,
{
    let inner = m.scoped(m.scope).push(Frame::ExitScope(m.scope));
    lemma_hoisted_stacks(p, inner, Some(body), 0);
    let after = m.entered(p, body);
    assert(after.frames.take(m.frames.len() as int) =~= m.frames);
}

pub proof fn lemma_hoisted_stacks(p: Program, m: MachineView, block: Option<BlockId>, k: int)
    ensures
        m.hoisted(p, block, k).frames == m.frames,
        m.hoisted(p, block, k).values == m.values,
        m.hoisted(p, block, k).scope == m.scope,
        m.hoisted(p, block, k).depth == m.depth,
        m.hoisted(p, block, k).suspended == m.suspended,
    decreases p.statements_of(block).len() - k,
{
    if 0 <= k < p.statements_of(block).len() {
        match p.statements_of(block)[k].kind {
            StatementKind::Function { name, .. } => {
                let made = m.function_made(crate::interpreter::semantics::FnAt::Declared(StmtAt { block, index: k as usize }));
                lemma_hoisted_stacks(
                    p,
                    MachineView { heap: made.heap.declared(m.scope, name.name@, m.function_value()), ..made },
                    block,
                    k + 1,
                );
            },
            _ => {
                lemma_hoisted_stacks(p, m, block, k + 1);
            },
        }
    }
}

/// A block's statements run in order inside a scope of their own.
pub proof fn law_block_runs_in_order(p: Program, m: MachineView, at: StmtAt, body: BlockId)
    requires
        statement_at(p, at).kind == StatementKind::Block(body),
    ensures
        m.step(p, Frame::Statement(at)) matches Turn::Go(after) && after.values == m.values && runs_block(p, m, after, body),
{
    lemma_runs_block(p, m, body);
}

/// A `while` tests its condition before each iteration: while it is true the body runs and the loop comes
/// again, and when it is false the loop is over.
pub proof fn law_while(p: Program, m: MachineView, at: StmtAt, state: LoopFrame, condition: ExprId, body: BlockId)
    requires
        statement_at(p, at).kind matches StatementKind::While { condition: c, body: b, .. } && c.expression == condition && b
            == body,
        state.kind matches LoopKind::While { condition: c, body: b, .. } && c == condition && b == body,
        m.values.len() > 0,
        m.values.len() <= usize::MAX,
    ensures
        m.step(p, Frame::Statement(at)) matches Turn::Go(after) && after.frames.len() == m.frames.len() + 1
            && after.frames.drop_last() == m.frames && (after.frames.last() matches Frame::Loop(opened) && opened.outer_scope
            == m.scope && opened.values == m.values.len() && (opened.kind matches LoopKind::While { condition: c, body: b, .. }
            && c == condition && b == body)),
        m.step(p, Frame::Loop(state)) matches Turn::Go(after) && after.frames == m.frames.push(Frame::LoopTest(state)).push(
            Frame::Eval(condition),
        ) && after.values == m.values,
        m.heap.truthy(m.values.last()) ==> (m.step(p, Frame::LoopTest(state)) matches Turn::Go(after) && runs_block(
            p,
            m.push(Frame::Loop(state)),
            after,
            body,
        )),
        !m.heap.truthy(m.values.last()) ==> (m.step(p, Frame::LoopTest(state)) matches Turn::Go(after) && after.frames
            == m.frames && after.values == m.values.drop_last() && after.scope == m.scope),
{
    lemma_runs_block(p, m.pop().push(Frame::Loop(state)), body);
    if let Turn::Go(after) = m.step(p, Frame::Statement(at)) {
        assert(after.frames.drop_last() =~= m.frames);
    }
}

proof fn lemma_unwound_to(m: MachineView, consume: bool, d: int)
    requires
        0 <= d < m.frames.len(),
        m.frames[d] is Loop,
        forall|i: int| d < i < m.frames.len() ==> !((#[trigger] m.frames[i]) is Loop) && !(m.frames[i] is CallEnd),
    ensures
        m.unwound(consume).frames == m.frames.take(if consume { d } else { d + 1 }),
        m.frames[d] matches Frame::Loop(state) && m.unwound(consume).scope == state.outer_scope && (state.values
            <= m.values.len() ==> m.unwound(consume).values == m.values.take(state.values as int)),
    decreases m.frames.len(),
{
    let rest = MachineView { frames: m.frames.drop_last(), ..m };
    if d == m.frames.len() - 1 {
        assert(m.frames.drop_last().push(m.frames.last()) =~= m.frames.take(d + 1));
        assert(m.frames.drop_last() =~= m.frames.take(d));
    } else {
        let next = match m.frames.last() {
            Frame::ExitScope(outer) => rest.exited(outer),
            _ => rest,
        };
        assert(m.frames[m.frames.len() - 1] == m.frames.last());
        assert forall|i: int| d < i < next.frames.len() implies !((#[trigger] next.frames[i]) is Loop) && !(next.frames[i]
            is CallEnd) by {
            assert(next.frames[i] == m.frames[i]);
        }
        lemma_unwound_to(next, consume, d);
        assert(next.frames.take(d) =~= m.frames.take(d));
        assert(next.frames.take(d + 1) =~= m.frames.take(d + 1));
    }
}

/// A `break` ends the innermost loop and a `continue` goes back to it, in the scope that it runs in and with
/// the values that were there before it.
pub proof fn law_break_and_continue(p: Program, m: MachineView, at: StmtAt, d: int)
    requires
        statement_at(p, at).kind is Break || statement_at(p, at).kind is Continue,
        0 <= d < m.frames.len(),
        m.frames[d] is Loop,
        forall|i: int| d < i < m.frames.len() ==> !((#[trigger] m.frames[i]) is Loop) && !(m.frames[i] is CallEnd),
    ensures
        m.step(p, Frame::Statement(at)) matches Turn::Go(after) && after.frames == m.frames.take(
            if statement_at(p, at).kind is Break { d } else { d + 1 },
        ) && (m.frames[d] matches Frame::Loop(state) && after.scope == state.outer_scope && (state.values <= m.values.len()
            ==> after.values == m.values.take(state.values as int))),
{
    lemma_unwound_to(m, true, d);
    lemma_unwound_to(m, false, d);
}

proof fn lemma_returned_to(m: MachineView, value: RtView, d: int)
    requires
        0 <= d < m.frames.len(),
        m.frames[d] is CallEnd,
        forall|i: int| d < i < m.frames.len() ==> !((#[trigger] m.frames[i]) is CallEnd),
    ensures
        m.frames[d] matches Frame::CallEnd { outer_scope, values, chain, index, in_target } && m.returned(value).frames
            == m.frames.take(d).push(Frame::Link { chain, index: (index + 1) as usize, in_target }) && m.returned(value).scope
            == outer_scope && m.returned(value).depth == m.depth - 1 && (values <= m.values.len() ==> m.returned(value).values
            == m.values.take(values as int).push(value)),
    decreases m.frames.len(),
{
    let rest = MachineView { frames: m.frames.drop_last(), ..m };
    if d == m.frames.len() - 1 {
        assert(m.frames.drop_last() =~= m.frames.take(d));
    } else {
        let next = match m.frames.last() {
            Frame::ExitScope(outer) => rest.exited(outer),
            _ => rest,
        };
        assert(m.frames[m.frames.len() - 1] == m.frames.last());
        assert forall|i: int| d < i < next.frames.len() implies !((#[trigger] next.frames[i]) is CallEnd) by {
            assert(next.frames[i] == m.frames[i]);
        }
        lemma_returned_to(next, value, d);
        assert(next.frames.take(d) =~= m.frames.take(d));
    }
}

/// A `return` ends the innermost call with its value: the caller goes on in its own scope, with the values
/// that it had and that one.
pub proof fn law_return(p: Program, m: MachineView, expression: ExprId, d: int)
    requires
        m.depth > 0,
        m.values.len() > 0,
        0 <= d < m.frames.len(),
        m.frames[d] is CallEnd,
        forall|i: int| d < i < m.frames.len() ==> !((#[trigger] m.frames[i]) is CallEnd),
    ensures
        m.step(p, Frame::Return(expression)) matches Turn::Go(after) && (m.frames[d] matches Frame::CallEnd {
            outer_scope,
            values,
            chain,
            index,
            in_target,
        } && after.frames == m.frames.take(d).push(Frame::Link { chain, index: (index + 1) as usize, in_target })
            && after.scope == outer_scope && (values < m.values.len() ==> after.values == m.values.take(values as int).push(
            m.values.last(),
        ))),
{
    lemma_returned_to(m.pop(), m.top(), d);
    if let Frame::CallEnd { values, .. } = m.frames[d] {
        if values < m.values.len() {
            assert(m.pop().values.take(values as int) =~= m.values.take(values as int));
        }
    }
}

/// A function that runs off its end, or returns nothing, yields `null`.
pub proof fn law_calls_without_a_result(p: Program, m: MachineView, outer_scope: SlotId, values: usize, chain: Chain, index: usize, in_target: bool)
    requires
        values <= m.values.len(),
    ensures
        m.step(p, Frame::CallEnd { outer_scope, values, chain, index, in_target }) matches Turn::Go(after) && after.frames
            == m.frames.push(Frame::Link { chain, index: (index + 1) as usize, in_target }) && after.scope == outer_scope
            && after.values == m.values.take(values as int).push(RtView::Null),
{
    assert(m.values.subrange(0, values as int) =~= m.values.take(values as int));
}

pub proof fn lemma_bound_parameters(heap: HeapView, scope: SlotId, function: Function, values: Seq<RtView>, n: int, i: int)
    requires
        heap.slot(scope) is Scope,
        distinct(heap.bindings(scope)),
        0 <= n <= function.parameters@.len(),
        values.len() == function.parameters@.len(),
        forall|a: int, b: int|
            0 <= a < b < function.parameters@.len() ==> (#[trigger] function.parameters@[a]).name@ != (
            #[trigger] function.parameters@[b]).name@,
    ensures
        crate::interpreter::semantics::bound(heap, scope, function, values, n).slot(scope) is Scope,
        distinct(crate::interpreter::semantics::bound(heap, scope, function, values, n).bindings(scope)),
        crate::interpreter::semantics::bound(heap, scope, function, values, n).slots.len() == heap.slots.len(),
        0 <= i < n ==> value_of(
            crate::interpreter::semantics::bound(heap, scope, function, values, n).bindings(scope),
            function.parameters@[i].name@,
        ) == Some(values[i]),
    decreases n,
{
    if n > 0 {
        lemma_bound_parameters(heap, scope, function, values, n - 1, i);
        let before = crate::interpreter::semantics::bound(heap, scope, function, values, n - 1);
        let name = function.parameters@[n - 1].name@;
        lemma_put_distinct(before.bindings(scope), name, values[n - 1]);
        if 0 <= i < n {
            law_put_get(before.bindings(scope), name, values[n - 1], function.parameters@[i].name@);
        }
    }
}

/// The tree of a value: a scalar is itself; an array is the trees of its elements and an object the trees of
/// what it holds, in order and under its keys; a function has none.
pub proof fn law_tree(heap: HeapView, value: RtView, path: Set<int>)
    ensures
        value is Null ==> detach_value(heap, value, path) == Ok::<ValueView, DetachFailure>(ValueView::Null),
        value matches RtView::Bool(b) ==> detach_value(heap, value, path) == Ok::<ValueView, DetachFailure>(ValueView::Bool(b)),
        value matches RtView::Number(n) ==> detach_value(heap, value, path) == Ok::<ValueView, DetachFailure>(
            ValueView::Number(n),
        ),
        value matches RtView::String(s, _) ==> detach_value(heap, value, path) == Ok::<ValueView, DetachFailure>(
            ValueView::String(s),
        ),
        value is Function ==> detach_value(heap, value, path) == Err::<ValueView, DetachFailure>(DetachFailure::Function),
        value matches RtView::Array(id) ==> (heap.slot(id) is Array ==> match detach_value(heap, value, path) {
            Ok(tree) => tree matches ValueView::Array(items) && items.len() == heap.elements(id).len() && forall|i: int|
                0 <= i < items.len() ==> detach_value(heap, heap.elements(id)[i], path.insert(id.0 as int)) == Ok::<
                    ValueView,
                    DetachFailure,
                >(#[trigger] items[i]),
            Err(failure) => (path.contains(id.0 as int) && failure == DetachFailure::Cycle) || exists|i: int|
                0 <= i < heap.elements(id).len() && detach_value(
                    heap,
                    #[trigger] heap.elements(id)[i],
                    path.insert(id.0 as int),
                ) == Err::<ValueView, DetachFailure>(failure),
        }),
        value matches RtView::Object(id) ==> (heap.slot(id) is Object ==> match detach_value(heap, value, path) {
            Ok(tree) => tree matches ValueView::Object(entries) && entries.len() == heap.entries(id).len() && forall|i: int|
                0 <= i < entries.len() ==> (#[trigger] entries[i]).0 == heap.entries(id)[i].0 && detach_value(
                    heap,
                    heap.entries(id)[i].1,
                    path.insert(id.0 as int),
                ) == Ok::<ValueView, DetachFailure>(entries[i].1),
            Err(failure) => (path.contains(id.0 as int) && failure == DetachFailure::Cycle) || exists|i: int|
                0 <= i < heap.entries(id).len() && detach_value(
                    heap,
                    (#[trigger] heap.entries(id)[i]).1,
                    path.insert(id.0 as int),
                ) == Err::<ValueView, DetachFailure>(failure),
        }),
{
    match value {
        RtView::Array(id) => {
            lemma_trees(heap, crate::interpreter::detach::kids(heap, id), 0, path.insert(id.0 as int));
        },
        RtView::Object(id) => {
            lemma_trees(heap, crate::interpreter::detach::kids(heap, id), 0, path.insert(id.0 as int));
        },
        _ => {},
    }
}

proof fn lemma_trees(heap: HeapView, values: Seq<RtView>, k: int, path: Set<int>)
    requires
        0 <= k <= values.len(),
    ensures
        match detach_list(heap, values, k, path) {
            Ok(parts) => parts.len() == values.len() - k && forall|i: int|
                0 <= i < parts.len() ==> detach_value(heap, values[k + i], path) == Ok::<ValueView, DetachFailure>(
                    #[trigger] parts[i],
                ),
            Err(failure) => exists|i: int|
                k <= i < values.len() && detach_value(heap, #[trigger] values[i], path) == Err::<ValueView, DetachFailure>(
                    failure,
                ),
        },
    decreases values.len() - k,
{
    if k < values.len() {
        lemma_trees(heap, values, k + 1, path);
        match detach_list(heap, values, k, path) {
            Ok(parts) => {
                let rest = detach_list(heap, values, k + 1, path)->Ok_0;
                assert forall|i: int| 0 <= i < parts.len() implies detach_value(heap, values[k + i], path) == Ok::<
                    ValueView,
                    DetachFailure,
                >(#[trigger] parts[i]) by {
                    if i > 0 {
                        assert(parts[i] == rest[i - 1]);
                        assert(values[k + 1 + (i - 1)] == values[k + i]);
                    }
                }
            },
            Err(failure) => {},
        }
    }
}

/// A Script that returns at its top level ends with the tree of the value, and fails at the expression when
/// the value has none.
pub proof fn law_script_result(p: Program, m: MachineView, expression: ExprId)
    requires
        m.depth == 0,
        m.values.len() > 0,
    ensures
        match detach_value(m.heap, m.values.last(), Set::empty()) {
            Ok(tree) => m.step(p, Frame::Return(expression)) matches Turn::Halt(after, stop) && stop == StopView::Finished(tree),
            Err(failure) => m.step(p, Frame::Return(expression)) matches Turn::Fail(d) && d.span == p.expr(expression).span
                && d.code == (if failure == DetachFailure::Cycle {
                "type.cyclic_result"@
            } else {
                "type.function_result"@
            }),
        },
{
}

proof fn lemma_passed(heap: HeapView, p: Program, name: Seq<char>, values: Seq<RtView>, ids: Seq<ExprId>, k: int)
    requires
        values.len() == ids.len(),
        0 <= k <= ids.len(),
    ensures
        detached_arguments(heap, p, name, values, ids, k) matches Ok(list) ==> list.len() == ids.len() - k && forall|i: int|
            0 <= i < list.len() ==> (#[trigger] list[i]).span == p.expr(ids[k + i]).span && detach_value(
                heap,
                values[k + i],
                Set::empty(),
            ) == Ok::<ValueView, DetachFailure>(list[i].value),
    decreases ids.len() - k,
{
    if k < ids.len() {
        lemma_passed(heap, p, name, values, ids, k + 1);
        if let Ok(list) = detached_arguments(heap, p, name, values, ids, k) {
            let rest = detached_arguments(heap, p, name, values, ids, k + 1)->Ok_0;
            assert forall|i: int| 0 <= i < list.len() implies (#[trigger] list[i]).span == p.expr(ids[k + i]).span && detach_value(
                heap,
                values[k + i],
                Set::empty(),
            ) == Ok::<ValueView, DetachFailure>(list[i].value) by {
                if i > 0 {
                    assert(list[i] == rest[i - 1]);
                    assert(ids[k + 1 + (i - 1)] == ids[k + i]);
                    assert(values[k + 1 + (i - 1)] == values[k + i]);
                }
            }
        }
    }
}

/// A call of a name that nothing declares stops the Script with that name and the trees of its arguments, in
/// the order in which they are written; the arguments are evaluated in that order too. What the host answers
/// is what the call comes to.
pub proof fn law_host_call(p: Program, m: MachineView, chain: Chain, in_target: bool, ids: Seq<ExprId>, name: Seq<char>)
    requires
        chain_links(p, chain).len() > 0,
        chain_links(p, chain)[0].kind matches AccessKind::Call { arguments, .. } && arguments@ == ids,
        p.expr(crate::interpreter::semantics::chain_base(p, chain)).kind matches ExpressionKind::Identifier(node) && node.name@
            == name,
        ids.len() <= m.values.len(),
    ensures
        m.step(p, Frame::HostCall { chain, in_target }) matches Turn::Halt(after, stop) ==> (stop matches StopView::HostCall {
            name: called,
            arguments,
            ..
        } && called == name && arguments.len() == ids.len() && after.frames == m.frames && after.heap == m.heap && after.values
            == m.values.take(m.values.len() - ids.len()) && after.suspended == Some((chain, in_target)) && forall|i: int|
            0 <= i < ids.len() ==> (#[trigger] arguments[i]).span == p.expr(ids[i]).span && detach_value(
                m.heap,
                m.values[m.values.len() - ids.len() + i],
                Set::empty(),
            ) == Ok::<ValueView, DetachFailure>(arguments[i].value)),
        !(m.step(p, Frame::HostCall { chain, in_target }) is Go),
{
    let values = m.tops(ids.len() as int);
    lemma_passed(m.heap, p, name, values, ids, 0);
    assert(m.values.subrange(0, m.values.len() - ids.len()) =~= m.values.take(m.values.len() - ids.len()));
    if let Ok(list) = detached_arguments(m.heap, p, name, values, ids, 0) {
        assert forall|i: int| 0 <= i < ids.len() implies (#[trigger] list[i]).span == p.expr(ids[i]).span && detach_value(
            m.heap,
            m.values[m.values.len() - ids.len() + i],
            Set::empty(),
        ) == Ok::<ValueView, DetachFailure>(list[i].value) by {
            assert(values[0 + i] == m.values[m.values.len() - ids.len() + i]);
            assert(ids[0 + i] == ids[i]);
        }
    }
}

/// The arguments of a call are evaluated in the order in which they are written.
pub proof fn law_arguments_in_order(p: Program, m: MachineView, chain: Chain, index: usize, in_target: bool, ids: Seq<ExprId>)
    requires
        index < chain_links(p, chain).len(),
        chain_links(p, chain)[index as int].kind matches AccessKind::Call { arguments, .. } && arguments@ == ids,
        !(chain_links(p, chain)[index as int].optional && m.top() is Null),
        ids.len() <= usize::MAX,
    ensures
        m.step(p, Frame::Link { chain, index, in_target }) matches Turn::Go(after) && after.frames.len() == m.frames.len() + 1
            + ids.len() && after.frames[m.frames.len() as int] == (Frame::Invoke {
            chain,
            index,
            in_target,
            arguments: ids.len() as usize,
        }) && after.values == m.values && forall|i: int|
            0 <= i < ids.len() ==> after.frames[after.frames.len() - 1 - i] == Frame::Eval(#[trigger] ids[i]),
{
}

/// Work that fills a slice pauses the Script, when there is more to do, and a ceiling that is crossed stops it: memory
/// before allocations. Otherwise the Script runs on.
pub proof fn law_slices_and_ceilings(p: Program, m: MachineView, after: MachineView, fuel: nat)
    requires
        m.frames.len() > 0,
        m.taken().step(p, m.frames.last()) == Turn::Go(after),
        fuel > 0,
    ensures
        (after.meter.memory_ceiling matches Some(most) && after.used() > most) ==> (m.run(p, fuel) matches Turn::Halt(at, stop)
            && stop is OutOfMemory && at == after),
        !(after.meter.memory_ceiling matches Some(most) && after.used() > most) && (after.meter.allocation_ceiling matches Some(most)
            && after.allocations > most) ==> (m.run(p, fuel) matches Turn::Halt(at, stop) && stop is AllocationsExceeded && at
            == after),
        !(after.meter.memory_ceiling matches Some(most) && after.used() > most) && !(after.meter.allocation_ceiling
            matches Some(most) && after.allocations > most) && after.work < u64::MAX ==> if (after.meter.slice matches Some(slice)
            && after.work + 1 >= slice) && after.frames.len() > 0 {
            m.run(p, fuel) matches Turn::Halt(at, stop) && stop is Paused && at == (MachineView { work: 0, ..after })
        } else {
            m.run(p, fuel) == (MachineView { work: (after.work + 1) as u64, ..after }).run(p, (fuel - 1) as nat)
        },
{
}

/// A Script that has nothing left to do ends, with `null`.
pub proof fn law_end_of_script(p: Program, m: MachineView, fuel: nat)
    requires
        m.frames.len() == 0,
    ensures
        m.run(p, fuel) == Turn::Halt(m, StopView::Finished(ValueView::Null)),
{
}

/// What the host answers is what its call comes to: the value is copied in and lies on the stack, and the chain goes
/// on behind the call.
pub proof fn law_answer_of_the_host(m: MachineView, chain: Chain, in_target: bool, value: ValueView)
    requires
        m.suspended == Some((chain, in_target)),
    ensures
        crate::interpreter::machine::resumed(m, value).suspended is None,
        crate::interpreter::machine::resumed(m, value).frames == m.frames.push(Frame::Link { chain, index: 1, in_target }),
        crate::interpreter::machine::resumed(m, value).values == m.values.push(
            crate::interpreter::attach::attach_value(m.heap, value).1,
        ),
        crate::interpreter::machine::resumed(m, value).heap == crate::interpreter::attach::attach_value(m.heap, value).0,
        crate::interpreter::machine::resumed(m, value).scope == m.scope,
{
}

/// What lies in the heap weighs, besides its strings: 64 bytes each, 16 more for each element, and 48 and the length of
/// the name more for each entry.
pub proof fn law_weights(slot: SlotView, entries: Seq<(Seq<char>, RtView)>, n: int)
    requires
        0 <= n < entries.len(),
    ensures
        slot is Free ==> slot_bytes(slot) == 0,
        slot matches SlotView::Array { items, .. } ==> slot_bytes(slot) == 64 + 16 * items.len(),
        slot is Function ==> slot_bytes(slot) == 64,
        slot matches SlotView::Object { entries: held, .. } ==> slot_bytes(slot) == 64 + entries_bytes(held, held.len() as int),
        slot matches SlotView::Scope { bindings, .. } ==> slot_bytes(slot) == 64 + entries_bytes(bindings, bindings.len() as int),
        entries_bytes(entries, 0) == 0,
        entries_bytes(entries, n + 1) == entries_bytes(entries, n) + 48 + encode_utf8(entries[n].0).len(),
{
}

/// A text that would take the Script past its memory ceiling is not made: the Script stops before. The bytes of both
/// texts and 32 more are counted, and 32 for a `null`, a boolean or a number.
pub proof fn law_texts_stay_below_the_ceiling(p: Program, m: MachineView, left: ExprId, operator: BinaryAt, right: ExprId, a: Seq<char>, b: Seq<char>, most: u64)
    requires
        operator.kind == BinaryOperator::Add,
        m.values.len() > 1,
        m.values[m.values.len() - 2] matches RtView::String(text, _) && text == a,
        m.values.last() matches RtView::String(text, _) && text == b,
        m.meter.memory_ceiling == Some(most),
        encode_utf8(a).len() + encode_utf8(b).len() + 32 + m.used() <= u64::MAX,
    ensures
        m.used() + encode_utf8(a).len() + encode_utf8(b).len() + 32 > most ==> (m.step(
            p,
            Frame::Binary { left, operator, right },
        ) matches Turn::Halt(_, stop) && stop == StopView::OutOfMemory(operator.span)),
        m.used() + encode_utf8(a).len() + encode_utf8(b).len() + 32 <= most ==> (m.step(
            p,
            Frame::Binary { left, operator, right },
        ) matches Turn::Go(after) && after.values.len() == m.values.len() - 1 && (after.values.last() matches RtView::String(
            text,
            _,
        ) && text == a + b)),
{
}

/// Reading a text is work: one unit for each 256 bytes of it. Other values are read for nothing.
pub proof fn law_reading_is_work(m: MachineView, value: RtView)
    ensures
        value matches RtView::String(text, _) ==> m.work + encode_utf8(text).len() as int / 256 <= u64::MAX ==> m.read_text(
            value,
        ).work == m.work + encode_utf8(text).len() as int / 256,
        !(value is String) ==> m.read_text(value) == m,
        m.read_text(value).values == m.values && m.read_text(value).heap == m.heap && m.read_text(value).frames == m.frames,
{
}

/// A chain that starts by calling a name is a host call when nothing declares the name: its arguments are evaluated in
/// their order, and then the host is called. Any other chain starts with its base, and goes on with its first link.
pub proof fn law_chain_starts(p: Program, m: MachineView, id: ExprId, base: ExprId, links: Seq<AccessLink>)
    requires
        p.expr(id).kind matches ExpressionKind::Access { base: b, links: l } && b == base && l@ == links,
        links.len() > 0,
        links.len() <= usize::MAX,
    ensures
        m.step(p, Frame::Eval(id)) matches Turn::Go(after) && after.values == m.values && after.heap == m.heap && match (
            p.expr(base).kind,
            links[0].kind,
        ) {
            (ExpressionKind::Identifier(name), AccessKind::Call { arguments, .. }) => if m.heap.lookup(m.scope, name.name@)
                is None {
                after.frames.len() == m.frames.len() + 1 + arguments@.len() && after.frames[m.frames.len() as int]
                    == (Frame::HostCall { chain: Chain { access: id, end: links.len() as usize }, in_target: false })
                    && forall|i: int|
                    0 <= i < arguments@.len() ==> after.frames[after.frames.len() - 1 - i] == Frame::Eval(
                        #[trigger] arguments@[i],
                    )
            } else {
                after.frames == m.frames.push(
                    Frame::Link { chain: Chain { access: id, end: links.len() as usize }, index: 0, in_target: false },
                ).push(Frame::Eval(base))
            },
            _ => after.frames == m.frames.push(
                Frame::Link { chain: Chain { access: id, end: links.len() as usize }, index: 0, in_target: false },
            ).push(Frame::Eval(base)),
        },
{
}

/// An assignment to a name evaluates the value and then binds it; one to a property or an element evaluates what it is
/// assigned in, then the key, then the value, and then stores it. A chain with `?.` in it, and one that ends with a call,
/// cannot be assigned to.
pub proof fn law_assignments_are_scheduled(p: Program, m: MachineView, at: StmtAt, target: ExprId, value: ExprId)
    requires
        statement_at(p, at).kind matches StatementKind::Assignment { target: t, value: v, .. } && t == target && v == value,
    ensures
        p.expr(target).kind is Identifier ==> (m.step(p, Frame::Statement(at)) matches Turn::Go(after) && after.frames
            == m.frames.push(Frame::AssignName(target)).push(Frame::Eval(value))),
        p.expr(target).kind matches ExpressionKind::Access { base, links } ==> (links@.len() == 2 && links@[0].kind is Property
            && !links@[0].optional && !links@[1].optional && links@[1].kind is Index ==> (m.step(p, Frame::Statement(at))
            matches Turn::Go(after) && after.frames == m.frames.push(Frame::AssignMember(target)).push(Frame::Eval(value)).push(
            Frame::Eval(links@[1].kind->Index_expression),
        ).push(Frame::Link { chain: Chain { access: target, end: 1 }, index: 0, in_target: true }).push(Frame::Eval(base)))),
        p.expr(target).kind matches ExpressionKind::Access { base, links } ==> (links@.len() == 1 && !links@[0].optional
            && links@[0].kind is Property ==> (m.step(p, Frame::Statement(at)) matches Turn::Go(after) && after.frames
            == m.frames.push(Frame::AssignMember(target)).push(Frame::Eval(value)).push(
            Frame::Link { chain: Chain { access: target, end: 0 }, index: 0, in_target: true },
        ).push(Frame::Eval(base)))),
        p.expr(target).kind matches ExpressionKind::Access { base, links } ==> (links@.len() > 0 && ((exists|i: int|
            0 <= i < links@.len() && (#[trigger] links@[i]).optional) || links@.last().kind is Call) ==> (m.step(
            p,
            Frame::Statement(at),
        ) matches Turn::Fail(d) && d.code == "syntax.invalid_assignment_target"@ && d.span == p.expr(target).span)),
{
    if let ExpressionKind::Access { base, links } = p.expr(target).kind {
        if links@.len() == 2 && !links@[0].optional && !links@[1].optional {
            assert(forall|i: int| 0 <= i < links@.len() ==> !(#[trigger] links@[i]).optional);
        }
        if links@.len() == 1 && !links@[0].optional {
            assert(forall|i: int| 0 <= i < links@.len() ==> !(#[trigger] links@[i]).optional);
        }
    }
}

/// A statement that is an expression is evaluated and its value is dropped.
pub proof fn law_expression_statements(p: Program, m: MachineView, at: StmtAt, id: ExprId)
    requires
        statement_at(p, at).kind == StatementKind::Expression(id),
        m.values.len() > 0,
    ensures
        m.step(p, Frame::Statement(at)) matches Turn::Go(after) && after.frames == m.frames.push(Frame::Discard).push(
            Frame::Eval(id),
        ),
        m.step(p, Frame::Discard) matches Turn::Go(after) && after.values == m.values.drop_last() && after.frames == m.frames
            && after.heap == m.heap && after.scope == m.scope,
{
}

/// How operators and kinds of values are spelled in what a Script is told.
pub proof fn law_spellings(operator: BinaryOperator, value: RtView)
    ensures
        symbol_of(operator) == (match operator {
            BinaryOperator::Multiply => "*"@,
            BinaryOperator::Divide => "/"@,
            BinaryOperator::Remainder => "%"@,
            BinaryOperator::Add => "+"@,
            BinaryOperator::Subtract => "-"@,
            BinaryOperator::Less => "<"@,
            BinaryOperator::LessEqual => "<="@,
            BinaryOperator::Greater => ">"@,
            BinaryOperator::GreaterEqual => ">="@,
            BinaryOperator::Equal => "=="@,
            BinaryOperator::NotEqual => "!="@,
            BinaryOperator::And => "&&"@,
            BinaryOperator::Or => "||"@,
        }),
        kind_of(value) == (match value {
            RtView::Null => "null"@,
            RtView::Bool(_) => "bool"@,
            RtView::Number(_) => "number"@,
            RtView::String(_, _) => "string"@,
            RtView::Array(_) => "array"@,
            RtView::Object(_) => "object"@,
            RtView::Function(_) => "function"@,
        }),
{
}

/// A `for` over anything but an array or an object fails at what it iterates over.
pub proof fn law_only_collections_are_iterated(p: Program, m: MachineView, at: StmtAt, iterable: ExprId)
    requires
        statement_at(p, at).kind matches StatementKind::For { iterable: i, .. } && i == iterable,
        m.values.len() > 0,
        !(m.values.last() is Array) && !(m.values.last() is Object),
    ensures
        m.step(p, Frame::ForStart(at)) matches Turn::Fail(d) && d.code == "type.operand_mismatch"@ && d.span == p.expr(
            iterable,
        ).span,
{
}

/// A loop over a collection that was changed since the loop began fails at its keyword.
pub proof fn law_changed_collections_end_the_loop(p: Program, m: MachineView, state: LoopFrame)
    requires
        state.kind matches LoopKind::For { collection, version, .. } && m.heap.version(collection) != version,
    ensures
        m.step(p, Frame::Loop(state)) matches Turn::Fail(d) && d.code == "reference.collection_mutated"@ && (state.kind
            matches LoopKind::For { keyword, .. } && d.span == keyword),
{
}

/// A name is looked for in its own scope first, and then in the scope around it.
pub proof fn law_names_are_found_outwards(heap: HeapView, scope: SlotId, name: Seq<char>, fuel: nat)
    requires
        fuel > 0,
        heap.slot(scope) is Scope,
    ensures
        has_key(heap.bindings(scope), name) ==> heap.resolve_within(scope, name, fuel) == Some(scope),
        !has_key(heap.bindings(scope), name) ==> heap.resolve_within(scope, name, fuel) == (match heap.slot(scope)->Scope_parent {
            Some(outer) => heap.resolve_within(outer, name, (fuel - 1) as nat),
            None => None,
        }),
{
}

/// A function literal is a function value made in the scope that runs, which it captures.
pub proof fn law_function_literal(p: Program, m: MachineView, id: ExprId)
    requires
        p.expr(id).kind is Function,
    ensures
        m.step(p, Frame::Eval(id)) matches Turn::Go(after) && after.values.len() == m.values.len() + 1 && after.values.last()
            is Function && after.frames == m.frames && after.scope == m.scope,
{
}

/// A Script that goes on past a ceiling stops at once.
pub proof fn law_ceilings_hold_at_the_start(p: Program, m: MachineView)
    ensures
        (m.meter.memory_ceiling matches Some(most) && m.used() > most) ==> (m.execute(p) matches Turn::Halt(at, stop) && at == m
            && stop is OutOfMemory),
        !(m.meter.memory_ceiling matches Some(most) && m.used() > most) && (m.meter.allocation_ceiling matches Some(most)
            && m.allocations > most) ==> (m.execute(p) matches Turn::Halt(at, stop) && at == m && stop is AllocationsExceeded),
        !(m.meter.memory_ceiling matches Some(most) && m.used() > most) && !(m.meter.allocation_ceiling matches Some(most)
            && m.allocations > most) ==> m.execute(p) == m.run(p, u64::MAX as nat),
{
}

} // verus!
