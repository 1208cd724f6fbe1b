//! Logical formulas (clauses, goals, leaves, quantifications, constants) and
//! their canonical textual rendering, with de Bruijn bound variables resolved
//! to stable names through a scoped binder environment.

mod env;
mod formula;
mod laws;
mod render;
mod text;

pub use env::{names_upto, BinderEnv, RenderError, Scope};
pub use formula::{Clause, Constant, Goal, Leaf, Quantification};
pub use laws::{
    all_render, clause_scoped, goal_scoped, join, leaf_scoped, lemma_application_arity,
    lemma_clause_scoped, lemma_goal_scoped, lemma_innermost_binder, lemma_leaf_scoped,
    lemma_nested_depths, lemma_out_of_scope, lemma_render_deterministic, nested_chain, nested_text,
    texts_of,
};
pub use render::{
    and_word, arrow_sep, clause_text, constant_text, escape_char, escaped, exists_word, fmt_parens,
    forall_word, goal_text, implies_word, leaf_text, list_text, names_text, needs_escape, or_word,
    pair_text, prefixed, quant_text, render_constant, render_leaf, written, LeafRender,
};
pub use text::{
    binder_name, decimal, digit_chars, hex, hex_digit_chars, lemma_binder_names_distinct,
    letter_chars, push_binder_name, push_decimal, push_hex,
};
