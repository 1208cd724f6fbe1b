//! Canonical text of formulas. Each `*_text` spec function gives the text of a
//! formula rendered with `open` binder slots already open, or the error that
//! stops the render; each exec renderer appends exactly that text.

use vstd::prelude::*;

use crate::env::{BinderEnv, RenderError, Scope};
use crate::formula::{Clause, Constant, Goal, Leaf, Quantification};
use crate::text::{binder_name, decimal, hex, push_binder_name, push_decimal, push_hex};

verus! {

broadcast use {vstd::seq::group_seq_axioms, vstd::std_specs::vec::group_vec_axioms};

/// `r` and the text appended to `before`, giving `after`, agree with the
/// expected outcome `t`: on success exactly its text was appended; on failure
/// the same error is returned.
pub open spec fn written(
    t: Result<Seq<char>, RenderError>,
    r: Result<(), RenderError>,
    before: Seq<char>,
    after: Seq<char>,
) -> bool {
    match t {
        Ok(s) => r is Ok && after == before + s,
        Err(e) => r == Err::<(), RenderError>(e),
    }
}

/// Whether `c` is written as an escape sequence inside a quoted symbol.
pub open spec fn needs_escape(c: char) -> bool {
    c == '"' || c == '\\' || (c as u32) < 0x20 || (c as u32) == 0x7f
}

/// How `c` is written inside a quoted symbol: a quote or a backslash behind
/// a backslash; a tab, line feed, carriage return or NUL as `\t`, `\n`, `\r`
/// or `\0`; another control character as `\u{..}` with its code in
/// lower-case hexadecimal; any other character as itself.
pub open spec fn escape_char(c: char) -> Seq<char> {
    if c == '"' {
        seq!['\\', '"']
    } else if c == '\\' {
        seq!['\\', '\\']
    } else if c == '\t' {
        seq!['\\', 't']
    } else if c == '\n' {
        seq!['\\', 'n']
    } else if c == '\r' {
        seq!['\\', 'r']
    } else if c == '\0' {
        seq!['\\', '0']
    } else if needs_escape(c) {
        seq!['\\', 'u', '{'] + hex(c as u32 as nat) + seq!['}']
    } else {
        seq![c]
    }
}

/// The characters of `s`, each written as `escape_char` gives.
pub open spec fn escaped(s: Seq<char>) -> Seq<char>
    decreases s.len(),
{
    if s.len() == 0 {
        Seq::<char>::empty()
    } else {
        escaped(s.drop_last()) + escape_char(s.last())
    }
}

/// The text of a constant: a program symbol escaped and between double
/// quotes, or `?skol` followed by the counter.
pub open spec fn constant_text(c: Constant) -> Seq<char> {
    match c {
        Constant::Program(s) => seq!['"'] + escaped(s@) + seq!['"'],
        Constant::Skolemized(k) => seq!['?', 's', 'k', 'o', 'l'] + decimal(k as nat),
    }
}

/// The text of a leaf. An inference variable prints as `?` and its number; a
/// bound variable prints as the name of the slot it refers to, or fails when
/// its depth reaches past the open slots; an application prints its constant
/// and, when it has arguments, their texts in parentheses.
pub open spec fn leaf_text(l: Leaf, open: nat) -> Result<Seq<char>, RenderError>
    decreases l,
{
    match l {
        Leaf::InferenceVariable(v) => Ok(seq!['?'] + decimal(v as nat)),
        Leaf::BoundVariable(d) => if (d as nat) < open {
            Ok(binder_name((open - 1 - d) as nat))
        } else {
            Err(RenderError::OutOfScope { depth: d, open: open as usize })
        },
        Leaf::Application { constant, args } => if args.len() == 0 {
            Ok(constant_text(constant))
        } else {
            match list_text(args@, open) {
                Ok(t) => Ok(constant_text(constant) + seq!['('] + t + seq![')']),
                Err(e) => Err(e),
            }
        },
    }
}

/// The texts of `items` separated by `, `; the first failing item decides
/// the error.
pub open spec fn list_text(items: Seq<Leaf>, open: nat) -> Result<Seq<char>, RenderError>
    decreases items,
{
    if items.len() == 0 {
        Ok(Seq::<char>::empty())
    } else {
        let init = items.drop_last();
        match list_text(init, open) {
            Err(e) => Err(e),
            Ok(t) => match leaf_text(items.last(), open) {
                Err(e) => Err(e),
                Ok(x) => Ok(
                    if init.len() == 0 {
                        x
                    } else {
                        t + seq![',', ' '] + x
                    },
                ),
            },
        }
    }
}

/// Appends `s`.
fn push_str(out: &mut String, s: &str)
    ensures
        final(out)@ == old(out)@ + s@,
{
    out.append(s);
}

/// Appends the escape sequence of `c`, a character that needs one.
fn push_escape(out: &mut String, c: char)
    requires
        needs_escape(c),
    ensures
        final(out)@ == old(out)@ + escape_char(c),
{
    proof {
        reveal_strlit("\\\"");
        reveal_strlit("\\\\");
        reveal_strlit("\\t");
        reveal_strlit("\\n");
        reveal_strlit("\\r");
        reveal_strlit("\\0");
        reveal_strlit("\\u{");
        reveal_strlit("}");
    }
    if c == '"' {
        push_str(out, "\\\"");
    } else if c == '\\' {
        push_str(out, "\\\\");
    } else if c == '\t' {
        push_str(out, "\\t");
    } else if c == '\n' {
        push_str(out, "\\n");
    } else if c == '\r' {
        push_str(out, "\\r");
    } else if c == '\0' {
        push_str(out, "\\0");
    } else {
        push_str(out, "\\u{");
        push_hex(out, c as u32);
        push_str(out, "}");
        assert(final(out)@ =~= old(out)@ + escape_char(c));
    }
}

/// Appends the characters of `s`, escaped.
fn push_escaped(out: &mut String, s: &str)
    ensures
        final(out)@ == old(out)@ + escaped(s@),
{
    let n = s.unicode_len();
    let mut run: usize = 0;
    let mut i: usize = 0;
    while i < n
        invariant
            n == s@.len(),
            run <= i <= n,
            escaped(s@.subrange(0, i as int)) == escaped(s@.subrange(0, run as int)) + s@.subrange(
                run as int,
                i as int,
            ),
            out@ == old(out)@ + escaped(s@.subrange(0, run as int)),
        decreases n - i,
    {
        let c = s.get_char(i);
        let ghost prefix = s@.subrange(0, i + 1);
        assert(prefix.drop_last() =~= s@.subrange(0, i as int));
        assert(prefix.last() == c);
        if c == '"' || c == '\\' || (c as u32) < 0x20 || (c as u32) == 0x7f {
            let plain = s.substring_char(run, i);
            out.append(plain);
            push_escape(out, c);
            assert(out@ =~= old(out)@ + escaped(prefix));
            run = i + 1;
        } else {
            assert(escaped(prefix) =~= escaped(s@.subrange(0, run as int)) + s@.subrange(
                run as int,
                i + 1,
            ));
        }
        i = i + 1;
    }
    let plain = s.substring_char(run, n);
    out.append(plain);
    assert(s@.subrange(0, n as int) =~= s@);
    assert(out@ =~= old(out)@ + escaped(s@));
}

/// Appends the text of a constant.
pub fn render_constant(c: &Constant, out: &mut String)
    ensures
        final(out)@ == old(out)@ + constant_text(*c),
{
    match c {
        Constant::Program(s) => {
            let q = "\"";
            proof {
                reveal_strlit("\"");
            }
            push_str(out, q);
            push_escaped(out, s.as_str());
            push_str(out, q);
            assert(final(out)@ =~= old(out)@ + constant_text(*c));
        },
        Constant::Skolemized(k) => {
            let p = "?skol";
            proof {
                reveal_strlit("?skol");
            }
            push_str(out, p);
            push_decimal(out, *k);
            assert(final(out)@ =~= old(out)@ + constant_text(*c));
        },
    }
}

proof fn lemma_list_error_persists(items: Seq<Leaf>, open: nat, i: int)
    requires
        0 <= i <= items.len(),
        list_text(items.subrange(0, i), open) is Err,
    ensures
        list_text(items, open) == list_text(items.subrange(0, i), open),
    decreases items.len() - i,
{
    if i < items.len() {
        let next = items.subrange(0, i + 1);
        assert(next.drop_last() =~= items.subrange(0, i));
        lemma_list_error_persists(items, open, i + 1);
    } else {
        assert(items.subrange(0, i) =~= items);
    }
}

/// Appends the text of a leaf, resolving bound variables in `env`.
pub fn render_leaf(l: &Leaf, env: &BinderEnv, out: &mut String) -> (r: Result<(), RenderError>)
    requires
        env.wf(),
    ensures
        written(leaf_text(*l, env@.len()), r, old(out)@, final(out)@),
        r is Err && l is BoundVariable ==> final(out)@ == old(out)@,
    decreases l,
{
    match l {
        Leaf::InferenceVariable(v) => {
            let p = "?";
            proof {
                reveal_strlit("?");
            }
            push_str(out, p);
            push_decimal(out, *v);
            assert(final(out)@ =~= old(out)@ + leaf_text(*l, env@.len())->Ok_0);
            Ok(())
        },
        Leaf::BoundVariable(d) => {
            match env.resolve(*d) {
                Ok(name) => {
                    push_str(out, name.as_str());
                    Ok(())
                },
                Err(e) => Err(e),
            }
        },
        Leaf::Application { constant, args } => {
            render_constant(constant, out);
            if args.len() > 0 {
                let r = fmt_parens(args, env, out);
                assert(r is Ok ==> final(out)@ =~= old(out)@ + leaf_text(*l, env@.len())->Ok_0);
                r
            } else {
                Ok(())
            }
        },
    }
}

/// Appends the texts of `vs` separated by `, ` and between parentheses,
/// stopping at the first leaf that fails.
pub fn fmt_parens(vs: &Vec<Leaf>, env: &BinderEnv, out: &mut String) -> (r: Result<(), RenderError>)
    requires
        env.wf(),
    ensures
        written(
            match list_text(vs@, env@.len()) {
                Ok(t) => Ok(seq!['('] + t + seq![')']),
                Err(e) => Err(e),
            },
            r,
            old(out)@,
            final(out)@,
        ),
    decreases vs,
{
    let ghost open = env@.len();
    let lp = "(";
    let rp = ")";
    let sep = ", ";
    proof {
        reveal_strlit("(");
        reveal_strlit(")");
        reveal_strlit(", ");
    }
    push_str(out, lp);
    let mut i: usize = 0;
    while i < vs.len()
        invariant
            env.wf(),
            open == env@.len(),
            sep@ == seq![',', ' '],
            rp@ == seq![')'],
            i <= vs@.len(),
            list_text(vs@.subrange(0, i as int), open) is Ok,
            out@ == old(out)@ + seq!['('] + list_text(vs@.subrange(0, i as int), open)->Ok_0,
        decreases vs@.len() - i,
    {
        let ghost before = out@;
        let ghost prev = vs@.subrange(0, i as int);
        let ghost next = vs@.subrange(0, i + 1);
        assert(next.drop_last() =~= prev);
        assert(next.last() == vs@[i as int]);
        if i > 0 {
            push_str(out, sep);
        }
        let ghost mid = out@;
        match render_leaf(&vs[i], env, out) {
            Ok(()) => {
                let ghost x = leaf_text(vs@[i as int], open)->Ok_0;
                let ghost t = list_text(prev, open)->Ok_0;
                assert(out@ == mid + x);
                if i > 0 {
                    assert(mid =~= before + seq![',', ' ']);
                    assert(list_text(next, open)->Ok_0 == t + seq![',', ' '] + x);
                } else {
                    assert(t.len() == 0);
                    assert(mid == before);
                    assert(list_text(next, open)->Ok_0 == x);
                }
                assert(out@ =~= old(out)@ + seq!['('] + list_text(next, open)->Ok_0);
            },
            Err(e) => {
                proof {
                    lemma_list_error_persists(vs@, open, i + 1);
                }
                return Err(e);
            },
        }
        i = i + 1;
    }
    assert(vs@.subrange(0, vs@.len() as int) =~= vs@);
    push_str(out, rp);
    assert(out@ =~= old(out)@ + (seq!['('] + list_text(vs@, open)->Ok_0 + seq![')']));
    Ok(())
}

/// A leaf payload that formulas can be rendered around: its text, given the
/// number of open binder slots, and a renderer that appends exactly that text.
pub trait LeafRender: Sized {
    spec fn text(&self, open: nat) -> Result<Seq<char>, RenderError>;

    fn render_into(&self, env: &BinderEnv, out: &mut String) -> (r: Result<(), RenderError>)
        requires
            env.wf(),
        ensures
            written(self.text(env@.len()), r, old(out)@, final(out)@),
    ;
}

impl LeafRender for Leaf {
    open spec fn text(&self, open: nat) -> Result<Seq<char>, RenderError> {
        leaf_text(*self, open)
    }

    fn render_into(&self, env: &BinderEnv, out: &mut String) -> (r: Result<(), RenderError>) {
        render_leaf(self, env, out)
    }
}

/// The names of the `n` slots from stack position `start` on, separated by
/// `, `.
pub open spec fn names_text(start: nat, n: nat) -> Seq<char>
    decreases n,
{
    if n == 0 {
        Seq::<char>::empty()
    } else if n == 1 {
        binder_name(start)
    } else {
        names_text(start, (n - 1) as nat) + seq![',', ' '] + binder_name((start + n - 1) as nat)
    }
}

/// The text of a quantification of `n` slots entered on top of `open` open
/// ones, whose inner formula renders to `inner`: `(names -> inner)`.
pub open spec fn quant_text(
    open: nat,
    n: nat,
    inner: Result<Seq<char>, RenderError>,
) -> Result<Seq<char>, RenderError> {
    if open + n > usize::MAX {
        Err(RenderError::BinderOverflow { open: open as usize, requested: n as usize })
    } else {
        match inner {
            Ok(t) => Ok(seq!['('] + names_text(open, n) + seq![' ', '-', '>', ' '] + t + seq![')']),
            Err(e) => Err(e),
        }
    }
}

/// `head`, the text of `a`, `sep`, the text of `b`, and a closing
/// parenthesis; the first failing part decides the error.
pub open spec fn pair_text(
    head: Seq<char>,
    a: Result<Seq<char>, RenderError>,
    sep: Seq<char>,
    b: Result<Seq<char>, RenderError>,
) -> Result<Seq<char>, RenderError> {
    match a {
        Err(e) => Err(e),
        Ok(x) => match b {
            Err(e) => Err(e),
            Ok(y) => Ok(head + x + sep + y + seq![')']),
        },
    }
}

/// `word` in front of the text `r`, when there is one.
pub open spec fn prefixed(word: Seq<char>, r: Result<Seq<char>, RenderError>) -> Result<
    Seq<char>,
    RenderError,
> {
    match r {
        Ok(t) => Ok(word + t),
        Err(e) => Err(e),
    }
}

pub open spec fn and_word() -> Seq<char> {
    seq!['a', 'n', 'd', '(']
}

pub open spec fn or_word() -> Seq<char> {
    seq!['o', 'r', '(']
}

pub open spec fn implies_word() -> Seq<char> {
    seq!['i', 'm', 'p', 'l', 'i', 'e', 's', '(']
}

pub open spec fn arrow_sep() -> Seq<char> {
    seq![' ', '=', '>', ' ']
}

pub open spec fn forall_word() -> Seq<char> {
    seq!['f', 'o', 'r', 'a', 'l', 'l']
}

pub open spec fn exists_word() -> Seq<char> {
    seq!['e', 'x', 'i', 's', 't', 's']
}

/// The text of a goal rendered with `open` slots open.
pub open spec fn goal_text<L: LeafRender>(g: Goal<L>, open: nat) -> Result<Seq<char>, RenderError>
    decreases g,
{
    match g {
        Goal::True => Ok(seq!['t', 'r', 'u', 'e']),
        Goal::Leaf(l) => l.text(open),
        Goal::And(a, b) => pair_text(and_word(), goal_text(*a, open), seq![',', ' '], goal_text(*b, open)),
        Goal::Or(a, b) => pair_text(or_word(), goal_text(*a, open), seq![';', ' '], goal_text(*b, open)),
        Goal::Implication(c, l) => pair_text(implies_word(), goal_text(*c, open), arrow_sep(), l.text(open)),
        Goal::ForAll(q) => prefixed(
            forall_word(),
            quant_text(open, q.num_binders as nat, goal_text(q.formula, (open + q.num_binders) as nat)),
        ),
        Goal::Exists(q) => prefixed(
            exists_word(),
            quant_text(open, q.num_binders as nat, goal_text(q.formula, (open + q.num_binders) as nat)),
        ),
    }
}

/// The text of a clause rendered with `open` slots open.
pub open spec fn clause_text<L: LeafRender>(c: Clause<L>, open: nat) -> Result<Seq<char>, RenderError>
    decreases c,
{
    match c {
        Clause::Leaf(l) => l.text(open),
        Clause::And(a, b) => pair_text(and_word(), clause_text(*a, open), seq![',', ' '], clause_text(*b, open)),
        Clause::Implication(g, l) => pair_text(implies_word(), goal_text(*g, open), arrow_sep(), l.text(open)),
        Clause::ForAll(q) => prefixed(
            forall_word(),
            quant_text(open, q.num_binders as nat, clause_text(q.formula, (open + q.num_binders) as nat)),
        ),
    }
}

/// Appends the names of the `n` slots from position `start` on.
fn push_names(out: &mut String, start: usize, n: usize)
    requires
        start + n <= usize::MAX,
    ensures
        final(out)@ == old(out)@ + names_text(start as nat, n as nat),
{
    let sep = ", ";
    proof {
        reveal_strlit(", ");
    }
    let mut i: usize = 0;
    while i < n
        invariant
            i <= n,
            start + n <= usize::MAX,
            sep@ == seq![',', ' '],
            out@ == old(out)@ + names_text(start as nat, i as nat),
        decreases n - i,
    {
        if i > 0 {
            push_str(out, sep);
        }
        push_binder_name(out, start + i);
        assert(out@ =~= old(out)@ + names_text(start as nat, (i + 1) as nat));
        i = i + 1;
    }
}

/// Opens `n` slots in `env` and appends `(`, their names and ` -> `.
fn begin_quant(env: &mut BinderEnv, n: usize, out: &mut String) -> (r: Result<Scope, RenderError>)
    requires
        old(env).wf(),
    ensures
        final(env).wf(),
        old(env)@.len() + n <= usize::MAX ==> {
            &&& r is Ok
            &&& r->Ok_0.spec_start() == old(env)@.len()
            &&& r->Ok_0.spec_count() == n
            &&& final(env)@.len() == old(env)@.len() + n
            &&& final(out)@ == old(out)@ + seq!['('] + names_text(old(env)@.len(), n as nat) + seq![' ', '-', '>', ' ']
        },
        old(env)@.len() + n > usize::MAX ==> {
            &&& r == Err::<Scope, RenderError>(
                RenderError::BinderOverflow { open: old(env)@.len() as usize, requested: n },
            )
            &&& final(env)@ == old(env)@
        },
{
    let start = env.open_count();
    let scope = env.enter(n);
    if scope.is_ok() {
        let lp = "(";
        let arrow = " -> ";
        proof {
            reveal_strlit("(");
            reveal_strlit(" -> ");
        }
        push_str(out, lp);
        push_names(out, start, n);
        push_str(out, arrow);
        assert(out@ =~= old(out)@ + seq!['('] + names_text(start as nat, n as nat) + seq![' ', '-', '>', ' ']);
    }
    scope
}

/// Closes `scope` in `env` and, after a successful inner render, appends `)`.
fn end_quant(env: &mut BinderEnv, scope: Scope, inner: Result<(), RenderError>, out: &mut String) -> (r: Result<(), RenderError>)
    requires
        old(env).wf(),
        old(env)@.len() == scope.spec_start() + scope.spec_count(),
    ensures
        final(env).wf(),
        final(env)@.len() == scope.spec_start(),
        r == inner,
        inner is Ok ==> final(out)@ == old(out)@ + seq![')'],
{
    env.exit(scope);
    if inner.is_ok() {
        let rp = ")";
        proof {
            reveal_strlit(")");
        }
        push_str(out, rp);
    }
    inner
}

impl<L: LeafRender> Quantification<Goal<L>> {
    /// Appends `(names -> inner)`, the inner goal rendered with this
    /// quantification's slots open. Every slot it opens is closed again on
    /// every path, so `env` ends as it began.
    pub fn render_into(&self, env: &mut BinderEnv, out: &mut String) -> (r: Result<(), RenderError>)
        requires
            old(env).wf(),
        ensures
            final(env)@ == old(env)@,
            written(
                quant_text(
                    old(env)@.len(),
                    self.num_binders as nat,
                    goal_text(self.formula, (old(env)@.len() + self.num_binders) as nat),
                ),
                r,
                old(out)@,
                final(out)@,
            ),
        decreases self, 1nat,
    {
        match begin_quant(env, self.num_binders, out) {
            Err(e) => Err(e),
            Ok(scope) => {
                let inner = self.formula.render_into(env, out);
                let r = end_quant(env, scope, inner, out);
                assert(env@ =~= old(env)@);
                assert(r is Ok ==> final(out)@ =~= old(out)@ + quant_text(
                    old(env)@.len(),
                    self.num_binders as nat,
                    goal_text(self.formula, (old(env)@.len() + self.num_binders) as nat),
                )->Ok_0);
                r
            },
        }
    }
}

impl<L: LeafRender> Goal<L> {
    /// Appends the text of this goal, resolving bound variables in `env`.
    /// On every path, success or failure, `env` ends as it began.
    pub fn render_into(&self, env: &mut BinderEnv, out: &mut String) -> (r: Result<(), RenderError>)
        requires
            old(env).wf(),
        ensures
            final(env)@ == old(env)@,
            written(goal_text(*self, old(env)@.len()), r, old(out)@, final(out)@),
        decreases self, 1nat,
    {
        match self {
            Goal::True => {
                let t = "true";
                proof {
                    reveal_strlit("true");
                }
                push_str(out, t);
                assert(final(out)@ =~= old(out)@ + seq!['t', 'r', 'u', 'e']);
                Ok(())
            },
            Goal::Leaf(l) => l.render_into(env, out),
            Goal::And(..) | Goal::Or(..) => self.render_connective(env, out),
            Goal::Implication(..) => self.render_implication(env, out),
            Goal::ForAll(q) => {
                let w = "forall";
                proof {
                    reveal_strlit("forall");
                }
                push_str(out, w);
                let r = q.render_into(env, out);
                assert(r is Ok ==> final(out)@ =~= old(out)@ + goal_text(*self, old(env)@.len())->Ok_0);
                r
            },
            Goal::Exists(q) => {
                let w = "exists";
                proof {
                    reveal_strlit("exists");
                }
                push_str(out, w);
                let r = q.render_into(env, out);
                assert(r is Ok ==> final(out)@ =~= old(out)@ + goal_text(*self, old(env)@.len())->Ok_0);
                r
            },
        }
    }

    /// `render_into` for a conjunction or a disjunction.
    fn render_connective(&self, env: &mut BinderEnv, out: &mut String) -> (r: Result<(), RenderError>)
        requires
            old(env).wf(),
            self is And || self is Or,
        ensures
            final(env)@ == old(env)@,
            written(goal_text(*self, old(env)@.len()), r, old(out)@, final(out)@),
        decreases self, 0nat,
    {
        proof {
            reveal_strlit("and(");
            reveal_strlit(", ");
            reveal_strlit("or(");
            reveal_strlit("; ");
            reveal_strlit(")");
        }
        let (a, b, head, sep) = match self {
            Goal::And(a, b) => (a, b, "and(", ", "),
            Goal::Or(a, b) => (a, b, "or(", "; "),
            _ => {
                assert(false);
                return Ok(());
            },
        };
        push_str(out, head);
        let r = a.render_into(env, out);
        if r.is_err() {
            return r;
        }
        push_str(out, sep);
        let r = b.render_into(env, out);
        if r.is_err() {
            return r;
        }
        push_str(out, ")");
        assert(final(out)@ =~= old(out)@ + goal_text(*self, old(env)@.len())->Ok_0);
        Ok(())
    }

    /// `render_into` for an implication.
    fn render_implication(&self, env: &mut BinderEnv, out: &mut String) -> (r: Result<(), RenderError>)
        requires
            old(env).wf(),
            self is Implication,
        ensures
            final(env)@ == old(env)@,
            written(goal_text(*self, old(env)@.len()), r, old(out)@, final(out)@),
        decreases self, 0nat,
    {
        proof {
            reveal_strlit("implies(");
            reveal_strlit(" => ");
            reveal_strlit(")");
        }
        if let Goal::Implication(c, l) = self {
            push_str(out, "implies(");
            let r = c.render_into(env, out);
            if r.is_err() {
                return r;
            }
            push_str(out, " => ");
            let r = l.render_into(env, out);
            if r.is_err() {
                return r;
            }
            push_str(out, ")");
            assert(final(out)@ =~= old(out)@ + goal_text(*self, old(env)@.len())->Ok_0);
        }
        Ok(())
    }

    /// The text of this goal rendered in a fresh environment.
    pub fn render(&self) -> (r: Result<String, RenderError>)
        ensures
            match goal_text(*self, 0) {
                Ok(t) => r is Ok && r->Ok_0@ == t,
                Err(e) => r == Err::<String, RenderError>(e),
            },
    {
        let mut env = BinderEnv::new();
        let mut out = String::new();
        match self.render_into(&mut env, &mut out) {
            Ok(()) => Ok(out),
            Err(e) => Err(e),
        }
    }
}

impl<L: LeafRender> Quantification<Clause<L>> {
    /// Appends `(names -> inner)`, the inner clause rendered with this
    /// quantification's slots open. Every slot it opens is closed again on
    /// every path, so `env` ends as it began.
    pub fn render_into(&self, env: &mut BinderEnv, out: &mut String) -> (r: Result<(), RenderError>)
        requires
            old(env).wf(),
        ensures
            final(env)@ == old(env)@,
            written(
                quant_text(
                    old(env)@.len(),
                    self.num_binders as nat,
                    clause_text(self.formula, (old(env)@.len() + self.num_binders) as nat),
                ),
                r,
                old(out)@,
                final(out)@,
            ),
        decreases self, 1nat,
    {
        match begin_quant(env, self.num_binders, out) {
            Err(e) => Err(e),
            Ok(scope) => {
                let inner = self.formula.render_into(env, out);
                let r = end_quant(env, scope, inner, out);
                assert(env@ =~= old(env)@);
                assert(r is Ok ==> final(out)@ =~= old(out)@ + quant_text(
                    old(env)@.len(),
                    self.num_binders as nat,
                    clause_text(self.formula, (old(env)@.len() + self.num_binders) as nat),
                )->Ok_0);
                r
            },
        }
    }
}

impl<L: LeafRender> Clause<L> {
    /// Appends the text of this clause, resolving bound variables in `env`.
    /// On every path, success or failure, `env` ends as it began.
    pub fn render_into(&self, env: &mut BinderEnv, out: &mut String) -> (r: Result<(), RenderError>)
        requires
            old(env).wf(),
        ensures
            final(env)@ == old(env)@,
            written(clause_text(*self, old(env)@.len()), r, old(out)@, final(out)@),
        decreases self, 1nat,
    {
        match self {
            Clause::Leaf(l) => l.render_into(env, out),
            Clause::And(..) => self.render_and(env, out),
            Clause::Implication(..) => self.render_implication(env, out),
            Clause::ForAll(q) => {
                let w = "forall";
                proof {
                    reveal_strlit("forall");
                }
                push_str(out, w);
                let r = q.render_into(env, out);
                assert(r is Ok ==> final(out)@ =~= old(out)@ + clause_text(*self, old(env)@.len())->Ok_0);
                r
            },
        }
    }

    /// `render_into` for a conjunction.
    fn render_and(&self, env: &mut BinderEnv, out: &mut String) -> (r: Result<(), RenderError>)
        requires
            old(env).wf(),
            self is And,
        ensures
            final(env)@ == old(env)@,
            written(clause_text(*self, old(env)@.len()), r, old(out)@, final(out)@),
        decreases self, 0nat,
    {
        if let Clause::And(a, b) = self {
            proof {
                reveal_strlit("and(");
                reveal_strlit(", ");
                reveal_strlit(")");
            }
            push_str(out, "and(");
            let r = a.render_into(env, out);
            if r.is_err() {
                return r;
            }
            push_str(out, ", ");
            let r = b.render_into(env, out);
            if r.is_err() {
                return r;
            }
            push_str(out, ")");
            assert(final(out)@ =~= old(out)@ + clause_text(*self, old(env)@.len())->Ok_0);
        }
        Ok(())
    }

    /// `render_into` for a rule.
    fn render_implication(&self, env: &mut BinderEnv, out: &mut String) -> (r: Result<(), RenderError>)
        requires
            old(env).wf(),
            self is Implication,
        ensures
            final(env)@ == old(env)@,
            written(clause_text(*self, old(env)@.len()), r, old(out)@, final(out)@),
        decreases self, 0nat,
    {
        if let Clause::Implication(g, l) = self {
            proof {
                reveal_strlit("implies(");
                reveal_strlit(" => ");
                reveal_strlit(")");
            }
            push_str(out, "implies(");
            let r = g.render_into(env, out);
            if r.is_err() {
                return r;
            }
            push_str(out, " => ");
            let r = l.render_into(env, out);
            if r.is_err() {
                return r;
            }
            push_str(out, ")");
            assert(final(out)@ =~= old(out)@ + clause_text(*self, old(env)@.len())->Ok_0);
        }
        Ok(())
    }

    /// The text of this clause rendered in a fresh environment.
    pub fn render(&self) -> (r: Result<String, RenderError>)
        ensures
            match clause_text(*self, 0) {
                Ok(t) => r is Ok && r->Ok_0@ == t,
                Err(e) => r == Err::<String, RenderError>(e),
            },
    {
        let mut env = BinderEnv::new();
        let mut out = String::new();
        match self.render_into(&mut env, &mut out) {
            Ok(()) => Ok(out),
            Err(e) => Err(e),
        }
    }
}

impl Constant {
    /// The text of this constant.
    pub fn render(&self) -> (r: String)
        ensures
            r@ == constant_text(*self),
    {
        let mut out = String::new();
        render_constant(self, &mut out);
        out
    }
}

impl Leaf {
    /// The text of this leaf rendered with no binder slot open.
    pub fn render(&self) -> (r: Result<String, RenderError>)
        ensures
            match leaf_text(*self, 0) {
                Ok(t) => r is Ok && r->Ok_0@ == t,
                Err(e) => r == Err::<String, RenderError>(e),
            },
    {
        let env = BinderEnv::new();
        let mut out = String::new();
        match render_leaf(self, &env, &mut out) {
            Ok(()) => Ok(out),
            Err(e) => Err(e),
        }
    }
}

} // verus!
