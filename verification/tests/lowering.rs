use snake::basic_block::{ast, cps, cps_renaming, ssa};

fn nested_arithmetic() -> ast::Program {
    ast::Program {
        parameter: "input".to_string(),
        body: ast::Expression::Prim {
            prim: ast::Prim::Add,
            args: vec![
                ast::Expression::Number(1),
                ast::Expression::Prim {
                    prim: ast::Prim::Mul,
                    args: vec![
                        ast::Expression::Number(2),
                        ast::Expression::Variable("input".to_string()),
                    ],
                },
            ],
        },
    }
}

fn nested_arithmetic_lowered() -> ssa::BlockBody {
    ssa::BlockBody::Operation {
        dest: "_cps_0".to_string(),
        op: ssa::Operation::Prim(
            ssa::Prim::Mul,
            ssa::Immediate::Const(2),
            ssa::Immediate::Var("input".to_string()),
        ),
        next: Box::new(ssa::BlockBody::Operation {
            dest: "_cps_1".to_string(),
            op: ssa::Operation::Prim(
                ssa::Prim::Add,
                ssa::Immediate::Const(1),
                ssa::Immediate::Var("_cps_0".to_string()),
            ),
            next: Box::new(ssa::BlockBody::Return(ssa::Immediate::Var(
                "_cps_1".to_string(),
            ))),
        }),
    }
}

#[test]
fn cps_lowers_nested_arithmetic() {
    let program = nested_arithmetic();
    let lowered = cps::lower(&program);
    assert_eq!(lowered.entry, nested_arithmetic_lowered());
}

#[test]
fn lowers_let_binding() {
    let program = ast::Program {
        parameter: "input".to_string(),
        body: ast::Expression::Let(
            "x".to_string(),
            Box::new(ast::Expression::Number(1)),
            Box::new(ast::Expression::Variable("x".to_string())),
        ),
    };

    assert_eq!(
        cps::lower(&program).entry,
        ssa::BlockBody::Operation {
            dest: "x".to_string(),
            op: ssa::Operation::Immediate(ssa::Immediate::Const(1)),
            next: Box::new(ssa::BlockBody::Return(
                ssa::Immediate::Var("x".to_string(),)
            )),
        }
    );
}

#[test]
fn cps_renaming_lowers_nested_arithmetic() {
    let program = nested_arithmetic();
    let lowered = cps_renaming::lower(&program);
    assert_eq!(lowered.entry, nested_arithmetic_lowered());
}

#[test]
fn renames_shadowed_let_variables() {
    let program = ast::Program {
        parameter: "input".to_string(),
        body: ast::Expression::Let(
            "x".to_string(),
            Box::new(ast::Expression::Number(1)),
            Box::new(ast::Expression::Let(
                "x".to_string(),
                Box::new(ast::Expression::Number(2)),
                Box::new(ast::Expression::Variable("x".to_string())),
            )),
        ),
    };

    assert_eq!(
        cps_renaming::lower(&program).entry,
        ssa::BlockBody::Operation {
            dest: "_cps_0".to_string(),
            op: ssa::Operation::Immediate(ssa::Immediate::Const(1)),
            next: Box::new(ssa::BlockBody::Operation {
                dest: "_cps_1".to_string(),
                op: ssa::Operation::Immediate(ssa::Immediate::Const(2)),
                next: Box::new(ssa::BlockBody::Return(ssa::Immediate::Var(
                    "_cps_1".to_string(),
                ))),
            }),
        }
    );
}

use snake::basic_block::{cps_concise, cps_ddcg, cps_ddcg_with_renaming, naive};

fn imm_var(x: &str) -> ssa::Immediate {
    ssa::Immediate::Var(x.to_string())
}

fn op(dest: &str, op: ssa::Operation, next: ssa::BlockBody) -> ssa::BlockBody {
    ssa::BlockBody::Operation { dest: dest.to_string(), op, next: Box::new(next) }
}

fn shadowing() -> ast::Program {
    ast::Program {
        parameter: "input".to_string(),
        body: ast::Expression::Let(
            "x".to_string(),
            Box::new(ast::Expression::Number(1)),
            Box::new(ast::Expression::Let(
                "x".to_string(),
                Box::new(ast::Expression::Number(2)),
                Box::new(ast::Expression::Variable("x".to_string())),
            )),
        ),
    }
}

#[test]
fn destination_driven_lowering_avoids_copies() {
    let expected = op(
        "%rhs_1",
        ssa::Operation::Prim(ssa::Prim::Mul, ssa::Immediate::Const(2), imm_var("input")),
        op(
            "%result",
            ssa::Operation::Prim(ssa::Prim::Add, ssa::Immediate::Const(1), imm_var("%rhs_1")),
            ssa::BlockBody::Return(imm_var("%result")),
        ),
    );
    assert_eq!(cps_ddcg::lower(&nested_arithmetic()).entry, expected);
    assert_eq!(cps_concise::lower(&nested_arithmetic()).entry, expected);
    assert_eq!(cps_ddcg_with_renaming::lower(&nested_arithmetic()).entry, expected);
}

#[test]
fn destination_driven_lowering_binds_lets() {
    let program = ast::Program {
        parameter: "input".to_string(),
        body: ast::Expression::Let(
            "x".to_string(),
            Box::new(ast::Expression::Prim {
                prim: ast::Prim::Add1,
                args: vec![ast::Expression::Variable("input".to_string())],
            }),
            Box::new(ast::Expression::Variable("x".to_string())),
        ),
    };
    assert_eq!(
        cps_ddcg::lower(&program).entry,
        op(
            "x",
            ssa::Operation::Prim(ssa::Prim::Add, imm_var("input"), ssa::Immediate::Const(1)),
            ssa::BlockBody::Return(imm_var("x")),
        )
    );
    assert_eq!(
        cps_ddcg_with_renaming::lower(&program).entry,
        op(
            "%x_0",
            ssa::Operation::Prim(ssa::Prim::Add, imm_var("input"), ssa::Immediate::Const(1)),
            ssa::BlockBody::Return(imm_var("%x_0")),
        )
    );
}

#[test]
fn destination_driven_renaming_handles_shadowing() {
    assert_eq!(
        cps_ddcg_with_renaming::lower(&shadowing()).entry,
        op(
            "%x_0",
            ssa::Operation::Immediate(ssa::Immediate::Const(1)),
            op("%x_1", ssa::Operation::Immediate(ssa::Immediate::Const(2)), ssa::BlockBody::Return(imm_var("%x_1"))),
        )
    );
}

#[test]
fn first_lowering_names_operands_per_addition() {
    let program = ast::Program {
        parameter: "x".to_string(),
        body: ast::Expression::Prim {
            prim: ast::Prim::Add,
            args: vec![ast::Expression::Number(1), ast::Expression::Variable("x".to_string())],
        },
    };
    let lowered = naive::lower(&program);
    assert_eq!(lowered.param, "x");
    assert_eq!(
        lowered.entry,
        op(
            "%addArg1_0",
            ssa::Operation::Immediate(ssa::Immediate::Const(1)),
            op(
                "%addArg2_0",
                ssa::Operation::Immediate(imm_var("x")),
                op(
                    "result",
                    ssa::Operation::Prim(ssa::Prim::Add, imm_var("%addArg1_0"), imm_var("%addArg2_0")),
                    ssa::BlockBody::Return(imm_var("result")),
                ),
            ),
        )
    );
}

#[test]
fn reference_interpreter_evaluates() {
    assert_eq!(naive::interpret(&nested_arithmetic(), 5), 11);
    assert_eq!(naive::interpret(&shadowing(), 5), 2);
    let program = ast::Program {
        parameter: "n".to_string(),
        body: ast::Expression::Prim {
            prim: ast::Prim::Sub,
            args: vec![
                ast::Expression::Prim { prim: ast::Prim::Sub1, args: vec![ast::Expression::Variable("n".to_string())] },
                ast::Expression::Number(10),
            ],
        },
    };
    assert_eq!(naive::interpret(&program, 3), -8);
}

#[test]
fn pretty_prints_programs() {
    let lowered = cps_ddcg::lower(&nested_arithmetic());
    assert_eq!(
        lowered.to_text(),
        "entry(input):\n  %rhs_1 = mul 2 input\n  %result = add 1 %rhs_1\n  ret %result"
    );
    let lowered = cps::lower(&ast::Program { parameter: "y".to_string(), body: ast::Expression::Number(-3) });
    assert_eq!(lowered.to_text(), "entry(y):\n  ret -3");
}

/// Runs a lowered program on input `x`, as its straight-line code reads.
fn run_ssa(p: &ssa::Program, x: i64) -> i64 {
    let mut env: std::collections::HashMap<String, i64> = std::collections::HashMap::new();
    env.insert(p.param.clone(), x);
    let imm = |env: &std::collections::HashMap<String, i64>, i: &ssa::Immediate| match i {
        ssa::Immediate::Const(c) => *c,
        ssa::Immediate::Var(v) => env[v],
    };
    let mut block = &p.entry;
    loop {
        match block {
            ssa::BlockBody::Return(i) => return imm(&env, i),
            ssa::BlockBody::Operation { dest, op, next } => {
                let v = match op {
                    ssa::Operation::Immediate(i) => imm(&env, i),
                    ssa::Operation::Prim(ssa::Prim::Add, a, b) => imm(&env, a) + imm(&env, b),
                    ssa::Operation::Prim(ssa::Prim::Sub, a, b) => imm(&env, a) - imm(&env, b),
                    ssa::Operation::Prim(ssa::Prim::Mul, a, b) => imm(&env, a) * imm(&env, b),
                };
                env.insert(dest.clone(), v);
                block = next;
            }
        }
    }
}

fn var(x: &str) -> ast::Expression {
    ast::Expression::Variable(x.to_string())
}

fn prim(p: ast::Prim, args: Vec<ast::Expression>) -> ast::Expression {
    ast::Expression::Prim { prim: p, args }
}

fn let_in(x: &str, e1: ast::Expression, e2: ast::Expression) -> ast::Expression {
    ast::Expression::Let(x.to_string(), Box::new(e1), Box::new(e2))
}

/// `let a = sub1(x) in let b = a * (x + 2) in b - (a + 10)`
fn with_lets() -> ast::Program {
    ast::Program {
        parameter: "x".to_string(),
        body: let_in(
            "a",
            prim(ast::Prim::Sub1, vec![var("x")]),
            let_in(
                "b",
                prim(ast::Prim::Mul, vec![var("a"), prim(ast::Prim::Add, vec![var("x"), ast::Expression::Number(2)])]),
                prim(ast::Prim::Sub, vec![var("b"), prim(ast::Prim::Add, vec![var("a"), ast::Expression::Number(10)])]),
            ),
        ),
    }
}

#[test]
fn every_lowering_keeps_the_value() {
    for x in [-7i64, 0, 1, 5, 100] {
        for p in [nested_arithmetic(), with_lets()] {
            let expected = naive::interpret(&p, x);
            assert_eq!(run_ssa(&cps::lower(&p), x), expected);
            assert_eq!(run_ssa(&cps_renaming::lower(&p), x), expected);
            assert_eq!(run_ssa(&cps_ddcg::lower(&p), x), expected);
            assert_eq!(run_ssa(&cps_concise::lower(&p), x), expected);
            assert_eq!(run_ssa(&cps_ddcg_with_renaming::lower(&p), x), expected);
        }
    }
}

#[test]
fn renaming_lowerings_keep_the_value_under_shadowing() {
    for x in [-3i64, 0, 5, 42] {
        let p = shadowing();
        let expected = naive::interpret(&p, x);
        assert_eq!(run_ssa(&cps_renaming::lower(&p), x), expected);
        assert_eq!(run_ssa(&cps_ddcg_with_renaming::lower(&p), x), expected);
    }
}

#[test]
fn first_lowering_keeps_the_value_of_left_nesting() {
    // ((x + 3) + x) + 4
    let p = ast::Program {
        parameter: "x".to_string(),
        body: prim(
            ast::Prim::Add,
            vec![
                prim(ast::Prim::Add, vec![prim(ast::Prim::Add, vec![var("x"), ast::Expression::Number(3)]), var("x")]),
                ast::Expression::Number(4),
            ],
        ),
    };
    for x in [-9i64, 0, 6] {
        assert_eq!(run_ssa(&naive::lower(&p), x), naive::interpret(&p, x));
    }
}

#[test]
fn first_lowering_keeps_nested_right_operands() {
    // 1 + (2 + 3): the right addition has operand names of its own
    let p = ast::Program {
        parameter: "x".to_string(),
        body: prim(
            ast::Prim::Add,
            vec![
                ast::Expression::Number(1),
                prim(ast::Prim::Add, vec![ast::Expression::Number(2), ast::Expression::Number(3)]),
            ],
        ),
    };
    assert_eq!(naive::interpret(&p, 0), 6);
    assert_eq!(run_ssa(&naive::lower(&p), 0), 6);
}

#[test]
fn fresh_names_count_up() {
    let mut next: usize = 0;
    assert_eq!(cps::fresh_name(&mut next), "_cps_0");
    assert_eq!(cps::fresh_name(&mut next), "_cps_1");
    assert_eq!(next, 2);
    let mut k: usize = 7;
    assert_eq!(cps_renaming::fresh_name(&mut k), "_cps_7");
    assert_eq!(k, 8);
    let mut m: usize = 3;
    assert_eq!(cps_ddcg::fresh_name("%lhs", &mut m), "%lhs_3");
    assert_eq!(cps_ddcg_with_renaming::fresh_name("x", &mut m), "%x_4");
    assert_eq!(m, 5);
}

#[test]
fn renaming_lowering_defines_temporaries_in_order() {
    let lowered = cps_renaming::lower(&with_lets());
    let mut dests: Vec<String> = Vec::new();
    let mut block = &lowered.entry;
    while let ssa::BlockBody::Operation { dest, next, .. } = block {
        dests.push(dest.clone());
        block = next;
    }
    let expected: Vec<String> = (0..dests.len()).map(|k| format!("_cps_{}", k)).collect();
    assert_eq!(dests, expected);
    assert_eq!(dests.len(), 7);
}

#[test]
fn interpreter_ignores_extra_arguments() {
    let p = ast::Program {
        parameter: "x".to_string(),
        body: prim(ast::Prim::Add1, vec![var("x"), var("unbound")]),
    };
    assert_eq!(naive::interpret(&p, 4), 5);
}

#[test]
fn first_lowering_keeps_deep_right_nesting() {
    // 1 + (2 + (3 + x))
    let p = ast::Program {
        parameter: "x".to_string(),
        body: prim(
            ast::Prim::Add,
            vec![
                ast::Expression::Number(1),
                prim(ast::Prim::Add, vec![ast::Expression::Number(2), prim(ast::Prim::Add, vec![ast::Expression::Number(3), var("x")])]),
            ],
        ),
    };
    for x in [-5i64, 0, 10] {
        assert_eq!(run_ssa(&naive::lower(&p), x), x + 6);
    }
}

#[test]
fn source_programs_clone() {
    let p = with_lets();
    let c = p.clone();
    assert_eq!(naive::interpret(&c, 3), naive::interpret(&p, 3));
}
