use pascal_interp::ast::AST;
use pascal_interp::errors::Error;
use pascal_interp::lexer::{check_literals, Lexer};
use pascal_interp::parser::{parse_source, Parser};
use pascal_interp::token::Kind;
use pascal_interp::var_type::VarType;

fn show(node: &AST) -> String {
    match node {
        AST::Program { name, block } => format!("(program {} {})", name, show(block)),
        AST::Block { declaration_nodes, compound_nodes } => format!(
            "(block [{}] {})",
            declaration_nodes.iter().map(show).collect::<Vec<String>>().join(" "),
            show(compound_nodes)
        ),
        AST::VarDecl { id, var_type, token } => {
            format!("(var {} {:?} @{}:{})", id, var_type, token.lineno, token.column)
        }
        AST::ProcedureDecl { id, params, block_node } => format!(
            "(procedure {} [{}] {})",
            id,
            params
                .iter()
                .map(|p| format!("{}:{:?}", p.id, p.ttype))
                .collect::<Vec<String>>()
                .join(" "),
            show(block_node)
        ),
        AST::NumInteger { value } => format!("{}", value),
        AST::NumReal { value } => format!("{:?}", f32::from_bits(value.to_bits())),
        AST::BinOp { left, right, op } => format!("({:?} {} {})", op, show(left), show(right)),
        AST::UnaryOp { op, expr } => format!("({:?} {})", op, show(expr)),
        AST::Compound { children } => {
            format!("(begin {})", children.iter().map(show).collect::<Vec<String>>().join(" "))
        }
        AST::Assign { left_id, left, right } => {
            format!("(set {} {} {})", left_id, show(left), show(right))
        }
        AST::Var { id, token } => format!("{}@{}:{}", id, token.lineno, token.column),
        AST::NoOp => String::from("noop"),
    }
}

fn tree(source: &str) -> String {
    assert!(check_literals(source));
    show(&parse_source(source).unwrap())
}

#[test]
fn a_small_program() {
    assert_eq!(
        tree("PROGRAM Division; VAR a,b:INTEGER; BEGIN a:=2; b:=10 DIV a; END."),
        "(program Division (block [(var a INTEGER @1:23) (var b INTEGER @1:25)] (begin \
         (set a a@1:42 2) (set b b@1:48 (INTEGER_DIV 10 a@1:58)) noop)))"
    );
}

#[test]
fn operators_group_to_the_left_and_by_precedence() {
    assert_eq!(
        tree("PROGRAM P; BEGIN x := 1 - 2 - 3 * 4 / 5 + (6 - 7) END."),
        "(program P (block [] (begin (set x x@1:18 (PLUS (MINUS (MINUS 1 2) \
         (FLOAT_DIV (MUL 3 4) 5)) (MINUS 6 7))))))"
    );
}

#[test]
fn nested_unary_negation() {
    assert_eq!(
        tree("PROGRAM P; VAR a: INTEGER; BEGIN a:= - -5; END."),
        "(program P (block [(var a INTEGER @1:16)] (begin (set a a@1:34 (MINUS (MINUS 5))) noop)))"
    );
    assert_eq!(
        tree("PROGRAM P; BEGIN a := + - + 2.5 END."),
        "(program P (block [] (begin (set a a@1:18 (PLUS (MINUS (PLUS 2.5)))))))"
    );
}

#[test]
fn procedures_nest_and_take_parameters() {
    let source = "PROGRAM Main;\n\
                  VAR x, y : REAL;\n\
                  PROCEDURE Alpha(a : INTEGER; b, c : REAL);\n\
                  VAR y : INTEGER;\n\
                  PROCEDURE Beta;\n\
                  BEGIN END;\n\
                  BEGIN x := a + x + y END;\n\
                  PROCEDURE Gamma();\n\
                  BEGIN END;\n\
                  BEGIN END.";
    assert_eq!(
        tree(source),
        "(program Main (block [(var x REAL @2:5) (var y REAL @2:8) \
         (procedure Alpha [a:INTEGER b:REAL c:REAL] (block [(var y INTEGER @4:5) \
         (procedure Beta [] (block [] (begin noop)))] \
         (begin (set x x@7:7 (PLUS (PLUS a@7:12 x@7:16) y@7:20))))) \
         (procedure Gamma [] (block [] (begin noop)))] (begin noop)))"
    );
}

#[test]
fn empty_statements_and_nested_compounds() {
    assert_eq!(
        tree("PROGRAM P; BEGIN ; BEGIN a := 1 END; ; END."),
        "(program P (block [] (begin noop (begin (set a a@1:26 1)) noop noop)))"
    );
}

fn unexpected(source: &str) -> (String, usize, usize) {
    assert!(check_literals(source));
    match parse_source(source) {
        Err(Error::UNEXPECTED_TOKEN(t)) => (format!("{:?}", t.kind), t.lineno, t.column),
        other => panic!("{:?}", other.map(|t| show(&t))),
    }
}

#[test]
fn a_missing_right_hand_side_is_refused_at_the_next_token() {
    assert_eq!(
        unexpected("PROGRAM P; VAR a: INTEGER; BEGIN a := ; END."),
        (String::from("SEMI"), 1, 39)
    );
    assert_eq!(unexpected("PROGRAM P; BEGIN a :=\n END."), (String::from("END"), 2, 2));
    assert_eq!(unexpected("PROGRAM P; BEGIN a := * 2 END."), (String::from("MUL"), 1, 23));
    assert_eq!(unexpected("PROGRAM P; BEGIN a :="), (String::from("EOF"), 0, 0));
}

#[test]
fn what_follows_the_final_dot_is_refused() {
    assert_eq!(unexpected("PROGRAM P; BEGIN END. x"), (String::from("ID(\"x\")"), 1, 23));
    assert_eq!(unexpected("PROGRAM P; BEGIN END. ."), (String::from("DOT"), 1, 23));
    assert_eq!(unexpected("PROGRAM P; BEGIN END.\nBEGIN END."), (String::from("BEGIN"), 2, 1));
    assert!(parse_source("PROGRAM P; BEGIN END. { a comment }\n").is_ok());
}

#[test]
fn the_grammar_is_held_to() {
    assert_eq!(unexpected("BEGIN END."), (String::from("BEGIN"), 1, 1));
    assert_eq!(unexpected("PROGRAM 1; BEGIN END."), (String::from("INTEGER_CONST(1)"), 1, 9));
    assert_eq!(unexpected("PROGRAM P BEGIN END."), (String::from("BEGIN"), 1, 11));
    assert_eq!(unexpected("PROGRAM P; BEGIN END"), (String::from("EOF"), 0, 0));
    assert_eq!(unexpected("PROGRAM P; VAR BEGIN END."), (String::from("BEGIN"), 1, 16));
    assert_eq!(unexpected("PROGRAM P; VAR a, : INTEGER; BEGIN END."), (String::from("COLON"), 1, 19));
    assert_eq!(unexpected("PROGRAM P; VAR a : BOOLEAN; BEGIN END."), (String::from("ID(\"BOOLEAN\")"), 1, 20));
    assert_eq!(unexpected("PROGRAM P; VAR a : INTEGER BEGIN END."), (String::from("BEGIN"), 1, 28));
    assert_eq!(
        unexpected("PROGRAM P; PROCEDURE Q; BEGIN END; VAR a : INTEGER; BEGIN END."),
        (String::from("VAR"), 1, 36)
    );
    assert_eq!(unexpected("PROGRAM P; PROCEDURE Q(a); BEGIN END; BEGIN END."), (String::from("RPAREN"), 1, 25));
    assert_eq!(unexpected("PROGRAM P; PROCEDURE Q(a: REAL;); BEGIN END; BEGIN END."), (String::from("RPAREN"), 1, 32));
    assert_eq!(unexpected("PROGRAM P; BEGIN a := (1 + 2 END."), (String::from("END"), 1, 30));
    assert_eq!(unexpected("PROGRAM P; BEGIN a := 1 2 END."), (String::from("INTEGER_CONST(2)"), 1, 25));
    assert_eq!(unexpected("PROGRAM P; BEGIN a 1 END."), (String::from("INTEGER_CONST(1)"), 1, 20));
}

#[test]
fn a_lexical_error_stops_the_parser() {
    assert!(matches!(parse_source("PROGRAM P; BEGIN a := 1 ? END."), Err(Error::INVALID_CHARACTER('?'))));
    assert!(matches!(parse_source("PROGRAM P; BEGIN a := 1 = 2 END."), Err(Error::INVALID_CHARACTER('='))));
    assert!(matches!(parse_source("#"), Err(Error::INVALID_CHARACTER('#'))));
}

#[test]
fn parsing_the_same_text_twice_gives_the_same_tree() {
    let source = "PROGRAM P; VAR a : REAL; PROCEDURE Q(x : INTEGER); BEGIN a := x END; BEGIN a := 1.5 * (2 + a) END.";
    let first = parse_source(source).unwrap();
    let second = parse_source(source).unwrap();
    assert_eq!(format!("{:?}", first), format!("{:?}", second));
}

#[test]
fn a_parser_can_be_put_on_a_lexer_by_hand() {
    let lexer = Lexer::new("PROGRAM P; VAR r : REAL; BEGIN END.").unwrap();
    let parser = Parser::new(lexer).unwrap();
    match parser.parse().unwrap() {
        AST::Program { name, block } => {
            assert_eq!(name, "P");
            match *block {
                AST::Block { declaration_nodes, .. } => {
                    assert!(matches!(
                        &declaration_nodes[0],
                        AST::VarDecl { id, var_type: VarType::REAL, token }
                            if id == "r" && matches!(&token.kind, Kind::ID(n) if n == "r")
                    ));
                }
                _ => panic!(),
            }
        }
        _ => panic!(),
    }
    assert!(matches!(
        Parser::new(Lexer::new("  ^").unwrap()),
        Err(Error::INVALID_CHARACTER('^'))
    ));
}

#[test]
fn a_copy_of_a_tree_is_the_same_tree() {
    let source = "PROGRAM P; VAR a, b : REAL; PROCEDURE Q(x : INTEGER; y : REAL); VAR c : INTEGER; \
                  BEGIN c := x END; BEGIN a := -1.5 * (2 + b) DIV 3; BEGIN END END.";
    let first = parse_source(source).unwrap();
    let second = first.clone();
    assert_eq!(format!("{:?}", first), format!("{:?}", second));
    assert_eq!(show(&first), show(&first.duplicate()));
}

#[test]
fn text_after_a_program_changes_nothing_before_it() {
    let program = "PROGRAM P; VAR a : REAL; BEGIN a := 1.5 END.";
    let tree_alone = tree(program);
    for rest in ["", " ", "\n\n", " { a comment }", "{}", " { open"] {
        assert_eq!(tree(&format!("{}{}", program, rest)), tree_alone, "{:?}", rest);
    }
    for (rest, kind) in [
        ("x", "ID(\"x\")"),
        (" BEGIN", "BEGIN"),
        ("{c} 12", "INTEGER_CONST(12)"),
        ("\n.", "DOT"),
        ("5", "INTEGER_CONST(5)"),
        (" PROGRAM Q; BEGIN END.", "PROGRAM"),
    ] {
        assert_eq!(unexpected(&format!("{}{}", program, rest)).0, kind, "{:?}", rest);
    }
    assert!(matches!(
        parse_source(&format!("{} ?", program)),
        Err(Error::INVALID_CHARACTER('?'))
    ));
}
