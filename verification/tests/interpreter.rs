use pascal_interp::ast::AST;
use pascal_interp::errors::Error;
use pascal_interp::lexer::check_literals;
use pascal_interp::interpreter::{
    arithmetic, can_evaluate, hands_back_value, Interpreteter, Value,
};
use pascal_interp::parser::parse_source;
use pascal_interp::pipeline::execute;
use pascal_interp::reals::Real;
use pascal_interp::token::{Kind, Token};

fn show(value: &Value) -> String {
    match value {
        Value::Integer(i) => format!("Integer({})", i),
        Value::Real(r) => format!("Real({:?})", f32::from_bits(r.to_bits())),
    }
}

fn bindings(source: &str) -> Vec<String> {
    assert!(check_literals(source));
    execute(source)
        .unwrap()
        .memory
        .iter()
        .map(|(name, value)| format!("{} = {}", name, show(value)))
        .collect()
}

fn real_value(x: f32) -> Value {
    Value::Real(Real::from_bits(x.to_bits()))
}

#[test]
fn integer_division() {
    assert_eq!(
        bindings("PROGRAM Division; VAR a,b:INTEGER; BEGIN a:=2; b:=10 DIV a; END."),
        vec!["a = Integer(2)", "b = Integer(5)"]
    );
}

#[test]
fn real_division() {
    assert_eq!(bindings("PROGRAM Quotient; VAR x:REAL; BEGIN x:=3/2; END."), vec!["x = Real(1.5)"]);
}

#[test]
fn double_negation() {
    assert_eq!(
        bindings("PROGRAM P; VAR a: INTEGER; BEGIN a:= - -5; END."),
        vec!["a = Integer(5)"]
    );
}

#[test]
fn the_report_is_sorted_by_name() {
    assert_eq!(
        bindings(
            "PROGRAM P; VAR zeta, b, a, B, ab, a1 : INTEGER; \
             BEGIN zeta := 1; b := 2; a := 3; B := 4; ab := 5; a1 := 6; a := 7 END."
        ),
        vec![
            "B = Integer(4)",
            "a = Integer(7)",
            "a1 = Integer(6)",
            "ab = Integer(5)",
            "b = Integer(2)",
            "zeta = Integer(1)"
        ]
    );
}

#[test]
fn a_larger_program() {
    let source = "PROGRAM Sample;\n\
        VAR\n\
           number     : INTEGER;\n\
           a, b, c, x : INTEGER;\n\
           y          : REAL;\n\
        BEGIN {Sample}\n\
           BEGIN\n\
              number := 2;\n\
              a := number;\n\
              b := 10 * a + 10 * number DIV 4;\n\
              c := a - - b\n\
           END;\n\
           x := 11;\n\
           y := 20 / 7 + 3.14;\n\
        END.  {Sample}";
    assert_eq!(
        bindings(source),
        vec![
            "a = Integer(2)",
            "b = Integer(25)",
            "c = Integer(27)",
            "number = Integer(2)",
            "x = Integer(11)",
            format!("y = Real({:?})", 20f32 / 7f32 + 3.14f32).as_str(),
        ]
    );
}

#[test]
fn integers_and_reals_mix_by_promotion() {
    assert_eq!(
        bindings(
            "PROGRAM P; VAR a, b, c, d, e, f, g : REAL; BEGIN \
             a := 1 + 2; b := 1 + 2.0; c := 2.5 * 2; d := 7 DIV 2; e := 7.0 DIV 2; \
             f := 7 / 2; g := -(1 - 2.5) END."
        ),
        vec![
            "a = Integer(3)",
            "b = Real(3.0)",
            "c = Real(5.0)",
            "d = Integer(3)",
            "e = Real(3.5)",
            "f = Real(3.5)",
            "g = Real(1.5)"
        ]
    );
}

#[test]
fn the_operators_on_values() {
    assert_eq!(arithmetic(&Kind::PLUS, Value::Integer(2), Value::Integer(3)), Value::Integer(5));
    assert_eq!(arithmetic(&Kind::MINUS, Value::Integer(2), Value::Integer(3)), Value::Integer(-1));
    assert_eq!(arithmetic(&Kind::MUL, Value::Integer(-4), Value::Integer(3)), Value::Integer(-12));
    assert_eq!(arithmetic(&Kind::INTEGER_DIV, Value::Integer(7), Value::Integer(2)), Value::Integer(3));
    assert_eq!(arithmetic(&Kind::INTEGER_DIV, Value::Integer(-7), Value::Integer(2)), Value::Integer(-3));
    assert_eq!(arithmetic(&Kind::FLOAT_DIV, Value::Integer(7), Value::Integer(2)), real_value(3.5));
    assert_eq!(arithmetic(&Kind::FLOAT_DIV, Value::Integer(6), Value::Integer(2)), real_value(3.0));
    assert_eq!(arithmetic(&Kind::PLUS, Value::Integer(1), real_value(0.5)), real_value(1.5));
    assert_eq!(arithmetic(&Kind::MUL, real_value(0.5), Value::Integer(3)), real_value(1.5));
    assert_eq!(arithmetic(&Kind::INTEGER_DIV, real_value(1.0), Value::Integer(4)), real_value(0.25));
    assert_eq!(Value::Integer(5).negate(), Value::Integer(-5));
    assert_eq!(Value::Integer(i32::MIN).negate(), Value::Integer(i32::MIN));
    assert_eq!(real_value(2.5).negate(), real_value(-2.5));
    assert_eq!(Value::Integer(16777217).as_real().to_bits(), 16777216f32.to_bits());
}

#[test]
fn integer_arithmetic_is_carried_out_on_reals() {
    let cases: [(i32, i32); 12] = [
        (16777217, 0),
        (16777216, 1),
        (2147483647, 1),
        (-2147483647, -2),
        (25165826, 8388609),
        (10, 0),
        (0, 0),
        (-10, 0),
        (46341, 46341),
        (123456789, 1000),
        (-7, 2),
        (i32::MIN, -1),
    ];
    for (a, b) in cases.iter() {
        let (x, y) = (*a as f32, *b as f32);
        let (p, q) = (Value::Integer(*a), Value::Integer(*b));
        assert_eq!(arithmetic(&Kind::PLUS, p, q), Value::Integer((x + y) as i32), "{} + {}", a, b);
        assert_eq!(arithmetic(&Kind::MINUS, p, q), Value::Integer((x - y) as i32), "{} - {}", a, b);
        assert_eq!(arithmetic(&Kind::MUL, p, q), Value::Integer((x * y) as i32), "{} * {}", a, b);
        assert_eq!(
            arithmetic(&Kind::INTEGER_DIV, p, q),
            Value::Integer((x / y) as i32),
            "{} DIV {}",
            a,
            b
        );
    }
    assert_eq!(
        arithmetic(&Kind::INTEGER_DIV, Value::Integer(25165826), Value::Integer(8388609)),
        Value::Integer(3)
    );
    assert_eq!(
        arithmetic(&Kind::INTEGER_DIV, Value::Integer(10), Value::Integer(0)),
        Value::Integer(i32::MAX)
    );
    assert_eq!(
        arithmetic(&Kind::INTEGER_DIV, Value::Integer(0), Value::Integer(0)),
        Value::Integer(0)
    );
}

#[test]
fn a_variable_that_was_never_assigned_is_not_found() {
    match execute("PROGRAM P; VAR a, b : INTEGER; BEGIN a := b + 1 END.") {
        Err(Error::ID_NOT_FOUND(t)) => {
            assert!(matches!(&t.kind, Kind::ID(n) if n == "b"));
            assert_eq!((t.lineno, t.column), (1, 43));
        }
        other => panic!("{:?}", other),
    }
    match execute("PROGRAM P; VAR a, b : INTEGER; BEGIN a := 1; BEGIN b := c END END.") {
        Err(Error::ID_NOT_FOUND(t)) => assert!(matches!(&t.kind, Kind::ID(n) if n == "c")),
        other => panic!("{:?}", other),
    }
}

#[test]
fn procedures_are_declared_and_never_run() {
    assert_eq!(
        bindings(
            "PROGRAM P; VAR a : INTEGER; \
             PROCEDURE Q(x : INTEGER); VAR b : INTEGER; BEGIN b := x; a := 99 END; \
             BEGIN a := 1 END."
        ),
        vec!["a = Integer(1)"]
    );
}

#[test]
fn each_stage_reports_its_own_error() {
    assert!(matches!(execute("PROGRAM P; BEGIN a := 1 $ END."), Err(Error::INVALID_CHARACTER('$'))));
    assert!(matches!(execute("PROGRAM P; BEGIN a := END."), Err(Error::UNEXPECTED_TOKEN(_))));
    assert!(matches!(
        execute("PROGRAM P; VAR a, a : REAL; BEGIN END."),
        Err(Error::DUPLICATE_ID(_))
    ));
    assert!(matches!(execute("PROGRAM P; BEGIN a := 1 END."), Err(Error::ID_NOT_FOUND(_))));
    assert!(matches!(execute(""), Err(Error::UNEXPECTED_TOKEN(t)) if matches!(t.kind, Kind::EOF)));
}

#[test]
fn the_report_holds_tree_scopes_and_memory() {
    let report = execute("PROGRAM P; VAR a : REAL; PROCEDURE Q; BEGIN END; BEGIN a := 0.5 END.").unwrap();
    assert!(matches!(&report.tree, AST::Program { name, .. } if name == "P"));
    assert_eq!(report.scopes.len(), 2);
    assert_eq!(report.scopes[0].scope.scope_name(), "Q");
    assert_eq!(report.scopes[1].scope.scope_name(), "global");
    assert_eq!(report.memory.len(), 1);
    assert_eq!(report.memory[0].0, "a");
    assert_eq!(report.memory[0].1, real_value(0.5));
}

#[test]
fn a_tree_built_by_hand_can_be_walked() {
    let token = Token { kind: Kind::ID(String::from("x")), lineno: 1, column: 1 };
    let tree = AST::Compound {
        children: vec![
            AST::Assign {
                left_id: String::from("x"),
                left: Box::new(AST::Var { id: String::from("x"), token: token.clone() }),
                right: Box::new(AST::BinOp {
                    left: Box::new(AST::NumInteger { value: 40 }),
                    right: Box::new(AST::UnaryOp {
                        op: Kind::PLUS,
                        expr: Box::new(AST::NumInteger { value: 2 }),
                    }),
                    op: Kind::PLUS,
                }),
            },
            AST::NoOp,
        ],
    };
    let mut interpreter = Interpreteter::new();
    assert_eq!(interpreter.visit_node(&tree).unwrap(), None);
    let var = AST::Var { id: String::from("x"), token };
    assert_eq!(interpreter.visit_node(&var).unwrap(), Some(Value::Integer(42)));
    let report = Interpreteter::new().interpret(&tree).unwrap();
    assert_eq!(report, vec![(String::from("x"), Value::Integer(42))]);
    let parsed = parse_source("PROGRAM P; BEGIN x := 40 + +2; END.").unwrap();
    assert_eq!(Interpreteter::new().interpret(&parsed).unwrap(), report);
}

#[test]
fn whether_a_tree_can_be_walked_is_decidable() {
    let parsed = parse_source("PROGRAM P; VAR a: REAL; BEGIN a := -(1 + 2) * +a END.").unwrap();
    assert!(can_evaluate(&parsed));
    assert!(!hands_back_value(&parsed));
    let sum = AST::BinOp {
        left: Box::new(AST::NumInteger { value: 1 }),
        right: Box::new(AST::NumInteger { value: 2 }),
        op: Kind::PLUS,
    };
    assert!(can_evaluate(&sum));
    assert!(hands_back_value(&sum));
    let no_operator = AST::BinOp {
        left: Box::new(AST::NumInteger { value: 1 }),
        right: Box::new(AST::NumInteger { value: 2 }),
        op: Kind::SEMI,
    };
    assert!(!can_evaluate(&no_operator));
    let no_operand = AST::BinOp {
        left: Box::new(AST::NoOp),
        right: Box::new(AST::NumInteger { value: 2 }),
        op: Kind::PLUS,
    };
    assert!(!can_evaluate(&no_operand));
    let negated_nothing = AST::UnaryOp { op: Kind::MINUS, expr: Box::new(AST::NoOp) };
    assert!(!can_evaluate(&negated_nothing));
    let plus_nothing = AST::UnaryOp { op: Kind::PLUS, expr: Box::new(AST::NoOp) };
    assert!(can_evaluate(&plus_nothing));
    assert!(!hands_back_value(&plus_nothing));
    let inside = AST::Compound { children: vec![AST::NoOp, no_operator] };
    assert!(!can_evaluate(&inside));
}

#[test]
fn what_fails_binds_nothing_and_keeps_what_was_bound() {
    let token = |name: &str| Token { kind: Kind::ID(String::from(name)), lineno: 1, column: 1 };
    let var = |name: &str| AST::Var { id: String::from(name), token: token(name) };
    let assign = |name: &str, value: AST| AST::Assign {
        left_id: String::from(name),
        left: Box::new(var(name)),
        right: Box::new(value),
    };
    let mut interpreter = Interpreteter::new();
    interpreter.visit_node(&assign("x", AST::NumInteger { value: 1 })).unwrap();
    let failing = assign(
        "x",
        AST::BinOp {
            left: Box::new(AST::NumInteger { value: 2 }),
            right: Box::new(var("missing")),
            op: Kind::PLUS,
        },
    );
    assert!(matches!(interpreter.visit_node(&failing), Err(Error::ID_NOT_FOUND(_))));
    assert_eq!(interpreter.visit_node(&var("x")).unwrap(), Some(Value::Integer(1)));
    let list = AST::Compound {
        children: vec![
            assign("a", AST::NumInteger { value: 10 }),
            assign("b", var("missing")),
            assign("c", AST::NumInteger { value: 30 }),
        ],
    };
    assert!(matches!(interpreter.visit_node(&list), Err(Error::ID_NOT_FOUND(_))));
    assert_eq!(interpreter.visit_node(&var("a")).unwrap(), Some(Value::Integer(10)));
    assert_eq!(interpreter.visit_node(&var("x")).unwrap(), Some(Value::Integer(1)));
    assert!(interpreter.visit_node(&var("b")).is_err());
    assert!(interpreter.visit_node(&var("c")).is_err());
}

#[test]
fn small_integers_divide_as_integers_do() {
    let mut state: u64 = 0x1357_9BDF_0246_8ACE;
    let mut draw = move || {
        state = state.wrapping_mul(6364136223846793005).wrapping_add(1442695040888963407);
        ((state >> 33) as i64 % 0x200_0000 - 0x100_0000) as i32
    };
    let mut pairs: Vec<(i32, i32)> = vec![
        (16777215, 2),
        (16777215, 16777214),
        (16777215, 16777215),
        (-16777215, 2),
        (16777214, 3),
        (1, 16777215),
        (0, 5),
        (0, -5),
        (7, -2),
        (-7, -2),
        (16777215, 1),
        (16777213, 5592405),
    ];
    for _ in 0..200_000 {
        let a = draw();
        let b = draw();
        let shrunk = if b % 3 == 0 { b % 1000 } else { b };
        pairs.push((a, shrunk));
    }
    for (a, b) in pairs.iter() {
        if *b == 0 || a.abs() >= 0x100_0000 || b.abs() >= 0x100_0000 {
            continue;
        }
        let p = Value::Integer(*a);
        let q = Value::Integer(*b);
        assert_eq!(arithmetic(&Kind::INTEGER_DIV, p, q), Value::Integer(a / b), "{} DIV {}", a, b);
        assert_eq!(arithmetic(&Kind::PLUS, p, Value::Integer(0)), Value::Integer(*a));
    }
}
