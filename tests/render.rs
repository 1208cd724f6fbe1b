use chalk_formula::{BinderEnv, Clause, Constant, Goal, Leaf, Quantification, RenderError};

fn bound(depth: usize) -> Leaf {
    Leaf::BoundVariable(depth)
}

fn app(name: &str, args: Vec<Leaf>) -> Leaf {
    Leaf::Application { constant: Constant::Program(name.to_string()), args }
}

fn forall_goal(n: usize, body: Goal<Leaf>) -> Goal<Leaf> {
    Goal::ForAll(Box::new(Quantification { num_binders: n, formula: body }))
}

fn exists_goal(n: usize, body: Goal<Leaf>) -> Goal<Leaf> {
    Goal::Exists(Box::new(Quantification { num_binders: n, formula: body }))
}

fn and_goal(a: Goal<Leaf>, b: Goal<Leaf>) -> Goal<Leaf> {
    Goal::And(Box::new(a), Box::new(b))
}

fn nested(k: usize) -> Goal<Leaf> {
    let mut g = Goal::True;
    for _ in 0..k {
        g = forall_goal(1, and_goal(Goal::Leaf(bound(0)), g));
    }
    g
}

#[test]
fn exists_with_one_binder() {
    let g = exists_goal(1, Goal::Leaf(bound(0)));
    assert_eq!(g.render(), Ok("exists(A -> A)".to_string()));
}

#[test]
fn clause_implication_of_true() {
    let c: Clause<Leaf> = Clause::Implication(Box::new(Goal::True), app("p", vec![]));
    assert_eq!(c.render(), Ok("implies(true => \"p\")".to_string()));
}

#[test]
fn skolemized_constant_without_args() {
    let l = Leaf::Application { constant: Constant::Skolemized(3), args: vec![] };
    assert_eq!(l.render(), Ok("?skol3".to_string()));
    assert_eq!(Constant::Skolemized(3).render(), "?skol3");
}

#[test]
fn rendering_twice_gives_same_text() {
    let g = forall_goal(
        2,
        Goal::Or(
            Box::new(Goal::Leaf(app("q", vec![bound(0), bound(1)]))),
            Box::new(exists_goal(1, Goal::Leaf(bound(2)))),
        ),
    );
    let first = g.render();
    let second = g.render();
    assert_eq!(first, second);
    assert_eq!(first, Ok("forall(A, B -> or(\"q\"(B, A); exists(C -> A)))".to_string()));
}

#[test]
fn environment_balanced_after_success() {
    let mut env = BinderEnv::new();
    let outer = env.enter(2).unwrap();
    let g = forall_goal(3, and_goal(Goal::Leaf(bound(0)), Goal::Leaf(bound(4))));
    let mut out = String::new();
    assert_eq!(g.render_into(&mut env, &mut out), Ok(()));
    assert_eq!(out, "forall(C, D, E -> and(E, A))");
    assert_eq!(env.open_count(), 2);
    env.exit(outer);
    assert_eq!(env.open_count(), 0);
}

#[test]
fn environment_balanced_after_failure_inside_quantifier() {
    let mut env = BinderEnv::new();
    let _outer = env.enter(1).unwrap();
    let g = forall_goal(2, exists_goal(1, and_goal(Goal::True, Goal::Leaf(bound(9)))));
    let mut out = String::new();
    let r = g.render_into(&mut env, &mut out);
    assert_eq!(r, Err(RenderError::OutOfScope { depth: 9, open: 4 }));
    assert_eq!(env.open_count(), 1);
    assert_eq!(env.resolve(0), Ok(&"A".to_string()));
}

#[test]
fn nested_binders_name_their_own_variables() {
    assert_eq!(
        nested(3).render(),
        Ok("forall(A -> and(A, forall(B -> and(B, forall(C -> and(C, true))))))".to_string())
    );
    assert_eq!(nested(0).render(), Ok("true".to_string()));
}

#[test]
fn application_arity() {
    assert_eq!(app("f", vec![]).render(), Ok("\"f\"".to_string()));
    let l = app(
        "f",
        vec![
            Leaf::InferenceVariable(1),
            app("a", vec![]),
            Leaf::Application { constant: Constant::Skolemized(2), args: vec![] },
        ],
    );
    assert_eq!(l.render(), Ok("\"f\"(?1, \"a\", ?skol2)".to_string()));
    let one = app("g", vec![app("h", vec![Leaf::InferenceVariable(0)])]);
    assert_eq!(one.render(), Ok("\"g\"(\"h\"(?0))".to_string()));
}

#[test]
fn out_of_scope_variable_is_reported() {
    assert_eq!(bound(0).render(), Err(RenderError::OutOfScope { depth: 0, open: 0 }));
    let g = forall_goal(1, Goal::Leaf(bound(1)));
    assert_eq!(g.render(), Err(RenderError::OutOfScope { depth: 1, open: 1 }));
    let inside = app("f", vec![Leaf::InferenceVariable(5), bound(3)]);
    assert_eq!(inside.render(), Err(RenderError::OutOfScope { depth: 3, open: 0 }));
}

#[test]
fn resolve_counts_from_innermost() {
    let mut env = BinderEnv::new();
    let s1 = env.enter(2).unwrap();
    let s2 = env.enter(1).unwrap();
    assert_eq!(s2.count(), 1);
    assert_eq!(env.resolve(0), Ok(&"C".to_string()));
    assert_eq!(env.resolve(2), Ok(&"A".to_string()));
    assert_eq!(env.resolve(3), Err(RenderError::OutOfScope { depth: 3, open: 3 }));
    env.exit(s2);
    assert_eq!(env.resolve(0), Ok(&"B".to_string()));
    env.exit(s1);
    assert_eq!(env.open_count(), 0);
}

#[test]
fn names_continue_past_the_alphabet() {
    let mut env = BinderEnv::new();
    let _s = env.enter(55).unwrap();
    assert_eq!(env.resolve(54), Ok(&"A".to_string()));
    assert_eq!(env.resolve(29), Ok(&"Z".to_string()));
    assert_eq!(env.resolve(28), Ok(&"A1".to_string()));
    assert_eq!(env.resolve(27), Ok(&"B1".to_string()));
    assert_eq!(env.resolve(2), Ok(&"A2".to_string()));
    assert_eq!(env.resolve(0), Ok(&"C2".to_string()));
}

#[test]
fn binder_overflow_is_reported() {
    let g = forall_goal(1, forall_goal(usize::MAX, Goal::True));
    assert_eq!(
        g.render(),
        Err(RenderError::BinderOverflow { open: 1, requested: usize::MAX })
    );
    let mut env = BinderEnv::new();
    let _s = env.enter(3).unwrap();
    assert!(env.enter(usize::MAX - 2).is_err());
    assert_eq!(env.open_count(), 3);
}

#[test]
fn goal_connectives() {
    let g = Goal::Implication(
        Box::new(Goal::Or(Box::new(Goal::True), Box::new(Goal::Leaf(app("x", vec![]))))),
        app("y", vec![]),
    );
    assert_eq!(g.render(), Ok("implies(or(true; \"x\") => \"y\")".to_string()));
    let zero = exists_goal(0, Goal::True);
    assert_eq!(zero.render(), Ok("exists( -> true)".to_string()));
}

#[test]
fn clause_forms() {
    let c: Clause<Leaf> = Clause::ForAll(Box::new(Quantification {
        num_binders: 2,
        formula: Clause::And(
            Box::new(Clause::Leaf(app("p", vec![bound(1)]))),
            Box::new(Clause::Implication(
                Box::new(exists_goal(1, Goal::Leaf(app("q", vec![bound(0), bound(1)])))),
                app("r", vec![bound(0)]),
            )),
        ),
    }));
    assert_eq!(
        c.render(),
        Ok("forall(A, B -> and(\"p\"(A), implies(exists(C -> \"q\"(C, B)) => \"r\"(B))))"
            .to_string())
    );
    let bad: Clause<Leaf> = Clause::Leaf(bound(0));
    assert_eq!(bad.render(), Err(RenderError::OutOfScope { depth: 0, open: 0 }));
}

#[test]
fn numerals_are_exact() {
    assert_eq!(Leaf::InferenceVariable(7).render(), Ok("?7".to_string()));
    assert_eq!(Leaf::InferenceVariable(1205).render(), Ok("?1205".to_string()));
    assert_eq!(
        Constant::Skolemized(u64::MAX).render(),
        "?skol18446744073709551615"
    );
    assert_eq!(Constant::Skolemized(0).render(), "?skol0");
    assert_eq!(Constant::Program("sym".to_string()).render(), "\"sym\"");
}

#[test]
fn program_symbols_are_escaped() {
    assert_eq!(Constant::Program("a\"b".to_string()).render(), "\"a\\\"b\"");
    assert_eq!(Constant::Program("a\\b".to_string()).render(), "\"a\\\\b\"");
    assert_eq!(Constant::Program("x\ny\tz\r\0".to_string()).render(), "\"x\\ny\\tz\\r\\0\"");
    assert_eq!(Constant::Program("\u{1b}[\u{7f}\u{1}".to_string()).render(), "\"\\u{1b}[\\u{7f}\\u{1}\"");
    assert_eq!(Constant::Program("é'λ".to_string()).render(), "\"é'λ\"");
    assert_eq!(Constant::Program(String::new()).render(), "\"\"");
    for s in ["a\"b", "tab\there", "plain", "\\", "\u{7}bell"] {
        assert_eq!(Constant::Program(s.to_string()).render(), format!("{:?}", s));
    }
}

#[test]
fn escaped_symbol_keeps_arguments_apart() {
    let l = app("f", vec![app("\", \"", vec![])]);
    assert_eq!(l.render(), Ok("\"f\"(\"\\\", \\\"\")".to_string()));
}

#[test]
fn mixed_chain_names_its_own_binders() {
    let g = exists_goal(
        1,
        and_goal(
            Goal::Leaf(bound(0)),
            forall_goal(1, and_goal(Goal::Leaf(bound(0)), exists_goal(1, Goal::Leaf(bound(0))))),
        ),
    );
    assert_eq!(
        g.render(),
        Ok("exists(A -> and(A, forall(B -> and(B, exists(C -> C)))))".to_string())
    );
}

#[test]
fn single_binder_under_open_slots() {
    let mut env = BinderEnv::new();
    let _s = env.enter(27).unwrap();
    let q = Quantification { num_binders: 1, formula: Goal::Leaf(bound(0)) };
    let mut out = String::new();
    assert_eq!(q.render_into(&mut env, &mut out), Ok(()));
    assert_eq!(out, "(B1 -> B1)");
    assert_eq!(env.open_count(), 27);
}

#[test]
fn out_of_scope_variable_writes_nothing() {
    let env = BinderEnv::new();
    let mut out = "start".to_string();
    let r = chalk_formula::render_leaf(&bound(0), &env, &mut out);
    assert_eq!(r, Err(RenderError::OutOfScope { depth: 0, open: 0 }));
    assert_eq!(out, "start");
}
