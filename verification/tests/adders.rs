use snake::numeral::{parse_u64, IntErrorKind};
use snake::adder;
use snake::adder_input;
use snake::neonate;
use snake::scope;

#[test]
fn adder_interprets_and_compiles() {
    // sub1(add1(add1(5)))
    let e = adder::Expression::Sub1(Box::new(adder::Expression::Add1(Box::new(adder::Expression::Add1(Box::new(
        adder::Expression::Number(5),
    ))))));
    assert_eq!(adder::interpret(&e), 6);
    assert_eq!(
        adder::compile(&e),
        "        section .text\n        global start_here\nstart_here:\nmov rax, 5\nadd rax, 1\nadd rax, 1\nsub rax, 1\nret\n"
    );
    assert_eq!(
        adder::optimized_compile(&e),
        "        section .text\n        global start_here\nstart_here:\n    mov rax, 6\n    ret\n"
    );
}

#[test]
fn adder_input_interprets_and_compiles() {
    // add1(add1(x))
    let e = adder_input::Expression::Add1(Box::new(adder_input::Expression::Add1(Box::new(
        adder_input::Expression::Variable(),
    ))));
    assert_eq!(adder_input::interpret(&e, 483), 485);
    assert_eq!(
        adder_input::compile(&e),
        "        section .text\n        global start_here\n    start_here:\nmov rax, rdi\nadd rax, 1\nadd rax, 1\nret\n"
    );
    assert_eq!(
        adder_input::optimized_compile(&e),
        "        section .text\n        global start_here\n    start_here:\nmov rax, rdi\nadd rax, 2\nret\n"
    );
    // sub1(add1(x)) folds to the input itself
    let e = adder_input::Expression::Sub1(Box::new(adder_input::Expression::Add1(Box::new(
        adder_input::Expression::Variable(),
    ))));
    assert_eq!(
        adder_input::optimized_compile(&e),
        "        section .text\n        global start_here\n    start_here:\nmov rax, rdi\nret\n"
    );
    // a constant folds to one load
    let e = adder_input::Expression::Sub1(Box::new(adder_input::Expression::Number(-3)));
    assert_eq!(adder_input::interpret(&e, 0), -4);
    assert_eq!(
        adder_input::optimized_compile(&e),
        "        section .text\n        global start_here\n    start_here:\nmov rax, -4\nret\n"
    );
}

#[test]
fn neonate_parses_and_compiles() {
    assert_eq!(neonate::parse("  42\n"), Ok(42));
    assert_eq!(neonate::parse("-9223372036854775808"), Ok(i64::MIN));
    assert_eq!(neonate::parse("+7"), Ok(7));
    assert_eq!(neonate::parse(" \t "), Err("cannot parse integer from empty string".to_string()));
    assert_eq!(neonate::parse("4x2"), Err("invalid digit found in string".to_string()));
    assert_eq!(neonate::parse("-"), Err("invalid digit found in string".to_string()));
    assert_eq!(neonate::parse("9223372036854775808"), Err("number too large to fit in target type".to_string()));
    assert_eq!(neonate::parse("-9223372036854775809"), Err("number too small to fit in target type".to_string()));
    assert_eq!(
        neonate::compile(-5),
        "section .text\n    global start_here\nstart_here:\n    mov rax, -5\n    ret"
    );
    assert_eq!(
        neonate::compile_listing(483),
        "        section .text\n        global start_here\nstart_here:\n        mov rax, 483\n        ret"
    );
}

#[test]
fn neonate_reads_back_what_it_prints() {
    for n in [0i64, 7, -7, 1000000, i64::MAX, i64::MIN] {
        assert_eq!(neonate::parse(&n.to_string()), Ok(n));
    }
}

fn let_(x: &str, e1: scope::Expression, e2: scope::Expression) -> scope::Expression {
    scope::Expression::Let(x.to_string(), Box::new(e1), Box::new(e2))
}

fn var(x: &str) -> scope::Expression {
    scope::Expression::Variable(x.to_string())
}

#[test]
fn scope_checks_and_interprets() {
    // def main(x): let y = add1(x) in let x = sub1(y) in add1(x)
    let p = scope::Program {
        parameter: "x".to_string(),
        body: let_(
            "y",
            scope::Expression::Add1(Box::new(var("x"))),
            let_("x", scope::Expression::Sub1(Box::new(var("y"))), scope::Expression::Add1(Box::new(var("x")))),
        ),
    };
    assert_eq!(scope::check_scope(&p), Ok(()));
    assert_eq!(scope::interpret(&p, 483), 484);
}

#[test]
fn scope_reports_first_free_variable() {
    // let y = z in w: z is the first free occurrence
    let p = scope::Program { parameter: "x".to_string(), body: let_("y", var("z"), var("w")) };
    assert_eq!(scope::check_scope(&p), Err("Free occurrence of the variable z".to_string()));
    // a let's name is not in scope in its own right-hand side
    let p = scope::Program { parameter: "x".to_string(), body: let_("y", var("y"), var("y")) };
    assert_eq!(scope::check_scope(&p), Err("Free occurrence of the variable y".to_string()));
}

#[test]
fn scope_small_functions() {
    assert_eq!(scope::add1(1), 2);
    assert_eq!(scope::sub1(1), 0);
    assert_eq!(scope::funny(40), 42);
}

#[test]
fn neonate_reads_back_padded_numbers() {
    for n in [0i64, 7, -42, i64::MAX, i64::MIN] {
        let text = format!("  {}\n", n);
        assert_eq!(neonate::parse(&text), Ok(n));
    }
}

#[test]
fn parses_unsigned_numbers() {
    assert_eq!(parse_u64("12"), Ok(12));
    assert_eq!(parse_u64("+12"), Ok(12));
    assert_eq!(parse_u64("18446744073709551615"), Ok(u64::MAX));
    assert_eq!(parse_u64("18446744073709551616"), Err(IntErrorKind::PosOverflow));
    assert_eq!(parse_u64("-1"), Err(IntErrorKind::InvalidDigit));
    assert_eq!(parse_u64("-"), Err(IntErrorKind::InvalidDigit));
    assert_eq!(parse_u64(""), Err(IntErrorKind::Empty));
    assert_eq!(parse_u64("1 "), Err(IntErrorKind::InvalidDigit));
}

#[test]
fn scope_programs_clone() {
    let p = scope::Program {
        parameter: "x".to_string(),
        body: scope::Expression::Let(
            "y".to_string(),
            Box::new(scope::Expression::Add1(Box::new(scope::Expression::Variable("x".to_string())))),
            Box::new(scope::Expression::Sub1(Box::new(scope::Expression::Variable("y".to_string())))),
        ),
    };
    let c = p.clone();
    assert_eq!(scope::interpret(&c, 10), scope::interpret(&p, 10));
    assert_eq!(scope::interpret(&c, 10), 10);
}
