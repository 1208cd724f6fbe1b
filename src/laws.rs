//! Properties of rendering that relate several formulas, calls or depths.

use vstd::prelude::*;

use crate::env::{names_upto, BinderEnv, RenderError};
use crate::formula::{Clause, Constant, Goal, Leaf, Quantification};
use crate::render::{
    and_word, clause_text, constant_text, exists_word, forall_word, goal_text, leaf_text, list_text,
    names_text, prefixed, quant_text,
};
use crate::text::{binder_name, lemma_binder_names_distinct};

verus! {

broadcast use {vstd::seq::group_seq_axioms, vstd::std_specs::vec::group_vec_axioms};

/// Two well-formed environments with the same number of open slots hold the
/// same names. The renderers' contracts fix their outcome from the formula and
/// the environment's names alone, so this is what makes two renders of one
/// formula in fresh environments agree.
pub proof fn lemma_render_deterministic(e1: BinderEnv, e2: BinderEnv)
    requires
        e1.wf(),
        e2.wf(),
        e1@.len() == e2@.len(),
    ensures
        e1@ == e2@,
{
}

/// The parts joined with `sep` between neighbours.
pub open spec fn join(parts: Seq<Seq<char>>, sep: Seq<char>) -> Seq<char>
    decreases parts.len(),
{
    if parts.len() == 0 {
        Seq::<char>::empty()
    } else if parts.len() == 1 {
        parts[0]
    } else {
        join(parts.drop_last(), sep) + sep + parts.last()
    }
}

/// Every leaf of `items` renders with `open` slots open.
pub open spec fn all_render(items: Seq<Leaf>, open: nat) -> bool {
    forall|i: int| 0 <= i < items.len() ==> (#[trigger] leaf_text(items[i], open)) is Ok
}

/// The texts of the leaves of `items`, in order.
pub open spec fn texts_of(items: Seq<Leaf>, open: nat) -> Seq<Seq<char>> {
    Seq::new(items.len(), |i: int| leaf_text(items[i], open)->Ok_0)
}

proof fn lemma_list_is_join(items: Seq<Leaf>, open: nat)
    requires
        all_render(items, open),
    ensures
        list_text(items, open) == Ok::<Seq<char>, RenderError>(
            join(texts_of(items, open), seq![',', ' ']),
        ),
    decreases items.len(),
{
    if items.len() > 0 {
        let init = items.drop_last();
        assert forall|i: int| 0 <= i < init.len() implies (#[trigger] leaf_text(init[i], open)) is Ok by {
            assert(init[i] == items[i]);
        }
        lemma_list_is_join(init, open);
        assert(texts_of(items, open).drop_last() =~= texts_of(init, open));
        assert(leaf_text(items.last(), open) is Ok);
    }
}

/// An application without arguments renders as its constant alone, with no
/// parentheses; one with `n > 0` arguments renders as its constant followed
/// by exactly the `n` texts of its arguments, in their order, separated by
/// `, ` and between parentheses.
pub proof fn lemma_application_arity(constant: Constant, args: Vec<Leaf>, open: nat)
    ensures
        args@.len() == 0 ==> leaf_text(Leaf::Application { constant, args }, open)
            == Ok::<Seq<char>, RenderError>(constant_text(constant)),
        args@.len() > 0 && all_render(args@, open) ==> leaf_text(
            Leaf::Application { constant, args },
            open,
        ) == Ok::<Seq<char>, RenderError>(
            constant_text(constant) + seq!['('] + join(texts_of(args@, open), seq![',', ' '])
                + seq![')'],
        ),
        texts_of(args@, open).len() == args@.len(),
{
    if args@.len() > 0 && all_render(args@, open) {
        lemma_list_is_join(args@, open);
    }
}

/// A bound variable whose depth reaches the number of open slots or past it
/// is reported as out of scope, never given a name.
pub proof fn lemma_out_of_scope(depth: usize, open: nat)
    requires
        depth >= open,
    ensures
        leaf_text(Leaf::BoundVariable(depth), open) == Err::<Seq<char>, RenderError>(
            RenderError::OutOfScope { depth, open: open as usize },
        ),
{
}

/// Every bound variable of `l` refers to one of the `open` open slots.
pub open spec fn leaf_scoped(l: Leaf, open: nat) -> bool
    decreases l,
{
    match l {
        Leaf::InferenceVariable(_) => true,
        Leaf::BoundVariable(d) => (d as nat) < open,
        Leaf::Application { constant, args } => forall|i: int|
            0 <= i < args@.len() ==> leaf_scoped(#[trigger] args@[i], open),
    }
}

/// Every bound variable of `g` refers to a slot open where it stands, and
/// every quantification's slots can be counted on top of those around it.
pub open spec fn goal_scoped(g: Goal<Leaf>, open: nat) -> bool
    decreases g,
{
    match g {
        Goal::True => true,
        Goal::Leaf(l) => leaf_scoped(l, open),
        Goal::And(a, b) => goal_scoped(*a, open) && goal_scoped(*b, open),
        Goal::Or(a, b) => goal_scoped(*a, open) && goal_scoped(*b, open),
        Goal::Implication(c, l) => goal_scoped(*c, open) && leaf_scoped(l, open),
        Goal::ForAll(q) => open + q.num_binders <= usize::MAX && goal_scoped(
            q.formula,
            (open + q.num_binders) as nat,
        ),
        Goal::Exists(q) => open + q.num_binders <= usize::MAX && goal_scoped(
            q.formula,
            (open + q.num_binders) as nat,
        ),
    }
}

/// As `goal_scoped`, for clauses.
pub open spec fn clause_scoped(c: Clause<Leaf>, open: nat) -> bool
    decreases c,
{
    match c {
        Clause::Leaf(l) => leaf_scoped(l, open),
        Clause::And(a, b) => clause_scoped(*a, open) && clause_scoped(*b, open),
        Clause::Implication(g, l) => goal_scoped(*g, open) && leaf_scoped(l, open),
        Clause::ForAll(q) => open + q.num_binders <= usize::MAX && clause_scoped(
            q.formula,
            (open + q.num_binders) as nat,
        ),
    }
}

proof fn lemma_list_scoped(items: Seq<Leaf>, open: nat)
    ensures
        list_text(items, open) is Ok <==> forall|i: int|
            0 <= i < items.len() ==> leaf_scoped(#[trigger] items[i], open),
    decreases items,
{
    if items.len() > 0 {
        let init = items.drop_last();
        lemma_list_scoped(init, open);
        lemma_leaf_scoped(items.last(), open);
        if list_text(items, open) is Ok {
            assert forall|i: int| 0 <= i < items.len() implies leaf_scoped(#[trigger] items[i], open) by {
                if i < init.len() {
                    assert(init[i] == items[i]);
                }
            }
        }
        if forall|i: int| 0 <= i < items.len() ==> leaf_scoped(#[trigger] items[i], open) {
            assert forall|i: int| 0 <= i < init.len() implies leaf_scoped(#[trigger] init[i], open) by {
                assert(init[i] == items[i]);
            }
            assert(leaf_scoped(items[items.len() - 1], open));
        }
    }
}

/// A leaf renders exactly when every bound variable in it is in scope.
pub proof fn lemma_leaf_scoped(l: Leaf, open: nat)
    ensures
        leaf_text(l, open) is Ok <==> leaf_scoped(l, open),
    decreases l,
{
    if let Leaf::Application { constant, args } = l {
        lemma_list_scoped(args@, open);
    }
}

/// A goal renders exactly when every bound variable in it is in scope and
/// every quantification's slots can be counted.
pub proof fn lemma_goal_scoped(g: Goal<Leaf>, open: nat)
    ensures
        goal_text(g, open) is Ok <==> goal_scoped(g, open),
    decreases g,
{
    match g {
        Goal::True => {},
        Goal::Leaf(l) => lemma_leaf_scoped(l, open),
        Goal::And(a, b) => {
            lemma_goal_scoped(*a, open);
            lemma_goal_scoped(*b, open);
        },
        Goal::Or(a, b) => {
            lemma_goal_scoped(*a, open);
            lemma_goal_scoped(*b, open);
        },
        Goal::Implication(c, l) => {
            lemma_goal_scoped(*c, open);
            lemma_leaf_scoped(l, open);
        },
        Goal::ForAll(q) => lemma_goal_scoped(q.formula, (open + q.num_binders) as nat),
        Goal::Exists(q) => lemma_goal_scoped(q.formula, (open + q.num_binders) as nat),
    }
}

/// A clause renders exactly when every bound variable in it is in scope and
/// every quantification's slots can be counted.
pub proof fn lemma_clause_scoped(c: Clause<Leaf>, open: nat)
    ensures
        clause_text(c, open) is Ok <==> clause_scoped(c, open),
    decreases c,
{
    match c {
        Clause::Leaf(l) => lemma_leaf_scoped(l, open),
        Clause::And(a, b) => {
            lemma_clause_scoped(*a, open);
            lemma_clause_scoped(*b, open);
        },
        Clause::Implication(g, l) => {
            lemma_goal_scoped(*g, open);
            lemma_leaf_scoped(l, open);
        },
        Clause::ForAll(q) => lemma_clause_scoped(q.formula, (open + q.num_binders) as nat),
    }
}

/// Single-slot quantifications nested one in another, one per entry of
/// `kinds` (outermost first; `true` for a universal, `false` for an
/// existential one), each body the conjunction of a bound variable of depth 0
/// and the next quantification (the innermost body ends in `true`).
pub open spec fn nested_chain(kinds: Seq<bool>) -> Goal<Leaf>
    decreases kinds.len(),
{
    if kinds.len() == 0 {
        Goal::True
    } else {
        let q = Box::new(
            Quantification {
                num_binders: 1,
                formula: Goal::And(
                    Box::new(Goal::Leaf(Leaf::BoundVariable(0))),
                    Box::new(nested_chain(kinds.drop_first())),
                ),
            },
        );
        if kinds[0] {
            Goal::ForAll(q)
        } else {
            Goal::Exists(q)
        }
    }
}

/// The text of `nested_chain(kinds)` with `open` slots open: the
/// quantification at nesting level `j` binds the name of slot `open + j`, and
/// the variable in its body prints as that same name.
pub open spec fn nested_text(open: nat, kinds: Seq<bool>) -> Seq<char>
    decreases kinds.len(),
{
    if kinds.len() == 0 {
        seq!['t', 'r', 'u', 'e']
    } else {
        (if kinds[0] {
            forall_word()
        } else {
            exists_word()
        }) + seq!['('] + binder_name(open) + seq![' ', '-', '>', ' '] + and_word() + binder_name(
            open,
        ) + seq![',', ' '] + nested_text(open + 1, kinds.drop_first()) + seq![')'] + seq![')']
    }
}

/// In a chain of nested single-slot quantifications, universal or
/// existential in any order, each bound variable of depth 0 prints as the
/// name of its own, immediately enclosing, binder, and the `k` binders get
/// `k` distinct names, none of them a name of the `open` slots around.
pub proof fn lemma_nested_depths(kinds: Seq<bool>, open: nat)
    requires
        open + kinds.len() <= usize::MAX,
    ensures
        goal_text(nested_chain(kinds), open) == Ok::<Seq<char>, RenderError>(
            nested_text(open, kinds),
        ),
        forall|i: nat, j: nat|
            i < j < open + kinds.len() ==> #[trigger] binder_name(i) != #[trigger] binder_name(j),
{
    lemma_chain_text(kinds, open);
    assert forall|i: nat, j: nat| i < j < open + kinds.len() implies #[trigger] binder_name(i)
        != #[trigger] binder_name(j) by {
        lemma_binder_names_distinct(i, j);
    }
}

#[verifier::rlimit(60)]
proof fn lemma_chain_text(kinds: Seq<bool>, open: nat)
    requires
        open + kinds.len() <= usize::MAX,
    ensures
        goal_text(nested_chain(kinds), open) == Ok::<Seq<char>, RenderError>(
            nested_text(open, kinds),
        ),
    decreases kinds.len(),
{
    if kinds.len() > 0 {
        let rest_kinds = kinds.drop_first();
        lemma_chain_text(rest_kinds, open + 1);
        let var = Goal::<Leaf>::Leaf(Leaf::BoundVariable(0));
        let rest = nested_chain(rest_kinds);
        let body = Goal::And(Box::new(var), Box::new(rest));
        let inner = seq!['a', 'n', 'd', '('] + binder_name(open) + seq![',', ' '] + nested_text(
            open + 1,
            rest_kinds,
        ) + seq![')'];
        assert(names_text(open, 1) == binder_name(open));
        assert(leaf_text(Leaf::BoundVariable(0), open + 1) == Ok::<Seq<char>, RenderError>(
            binder_name(open),
        ));
        assert(goal_text(var, open + 1) == Ok::<Seq<char>, RenderError>(binder_name(open)));
        assert(goal_text(body, open + 1) == Ok::<Seq<char>, RenderError>(inner));
        let quant = quant_text(open, 1, goal_text(body, open + 1));
        assert(quant->Ok_0 == seq!['('] + binder_name(open) + seq![' ', '-', '>', ' '] + inner
            + seq![')']);
        let q = Box::new(Quantification { num_binders: 1usize, formula: body });
        if kinds[0] {
            assert(nested_chain(kinds) == Goal::ForAll(q));
            assert(goal_text(nested_chain(kinds), open) == prefixed(forall_word(), quant));
        } else {
            assert(nested_chain(kinds) == Goal::Exists(q));
            assert(goal_text(nested_chain(kinds), open) == prefixed(exists_word(), quant));
        }
        assert(goal_text(nested_chain(kinds), open)->Ok_0 =~= nested_text(open, kinds));
    }
}

/// A single-slot quantification whose body is a bound variable of depth 0,
/// entered with any `open` slots already open, renders as `(n -> n)` for the
/// name `n` of the slot it opens, a name that no open slot holds: the
/// variable names its own binder, never an outer one.
pub proof fn lemma_innermost_binder(open: nat)
    requires
        open + 1 <= usize::MAX,
    ensures
        quant_text(open, 1, goal_text(Goal::<Leaf>::Leaf(Leaf::BoundVariable(0)), open + 1))
            == Ok::<Seq<char>, RenderError>(
            seq!['('] + binder_name(open) + seq![' ', '-', '>', ' '] + binder_name(open) + seq![')'],
        ),
        !names_upto(open).contains(binder_name(open)),
{
    assert(names_text(open, 1) == binder_name(open));
    assert(leaf_text(Leaf::BoundVariable(0), open + 1) == Ok::<Seq<char>, RenderError>(
        binder_name(open),
    ));
    if names_upto(open).contains(binder_name(open)) {
        let i = choose|i: int| 0 <= i < open && names_upto(open)[i] == binder_name(open);
        lemma_binder_names_distinct(i as nat, open);
    }
}

} // verus!
