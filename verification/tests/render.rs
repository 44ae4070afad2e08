use pascal_interp::parser::parse_source;
use pascal_interp::render::{describe_scope, describe_symbol, write_decimal};
use pascal_interp::semantic::SemanticAnalyzer;
use pascal_interp::symbols::Symbol;
use pascal_interp::ast::Param;
use pascal_interp::var_type::VarType;

#[test]
fn numbers_are_written_in_decimal() {
    for n in [0usize, 1, 9, 10, 11, 99, 100, 101, 12345, 4294967295, usize::MAX] {
        let mut out = String::from("n=");
        write_decimal(&mut out, n);
        assert_eq!(out, format!("n={}", n));
    }
}

#[test]
fn symbols_as_the_table_shows_them() {
    assert_eq!(
        describe_symbol(&Symbol::BuiltIn { name: String::from("INTEGER") }),
        "<BuiltIn(name='INTEGER')>"
    );
    assert_eq!(
        describe_symbol(&Symbol::Var { name: String::from("x"), kind: VarType::REAL }),
        "<Var(name='x', type='REAL')>"
    );
    assert_eq!(
        describe_symbol(&Symbol::Procedure { name: String::from("p"), params: vec![] }),
        "<Procedural(name='p', parameters=[])>"
    );
    assert_eq!(
        describe_symbol(&Symbol::Procedure {
            name: String::from("p"),
            params: vec![Param { id: String::from("a"), ttype: VarType::INTEGER }],
        }),
        "<Procedural(name='p', parameters=[name='a', type='INTEGER'])>"
    );
    assert_eq!(
        describe_symbol(&Symbol::Procedure {
            name: String::from("Alpha"),
            params: vec![
                Param { id: String::from("a"), ttype: VarType::INTEGER },
                Param { id: String::from("b"), ttype: VarType::REAL },
                Param { id: String::from("c"), ttype: VarType::REAL },
            ],
        }),
        "<Procedural(name='Alpha', parameters=[name='a', type='INTEGER', name='b', type='REAL', name='c', type='REAL'])>"
    );
}

#[test]
fn the_scope_tables_of_a_program() {
    let tree = parse_source(
        "PROGRAM Main; VAR y, x : REAL; \
         PROCEDURE Alpha(a : INTEGER); VAR y : INTEGER; BEGIN END; \
         BEGIN END.",
    )
    .unwrap();
    let mut analyzer = SemanticAnalyzer::new();
    analyzer.visit_node(&tree).unwrap();
    assert_eq!(
        describe_scope(analyzer.scope_at(0)),
        "\nSCOPE (SCOPED SYMBOL TABLE)\n\
         ===========================\n\
         Scope name: Alpha\n\
         Scope level: 2\n\
         Enclosing scope: global\n\
         \n\
         Scope (Scoped symbol table) contents\n\
         ------------------------------------\n\
         a = <Var(name='a', type='INTEGER')>\n\
         y = <Var(name='y', type='INTEGER')>\n"
    );
    assert_eq!(
        describe_scope(analyzer.scope_at(1)),
        "\nSCOPE (SCOPED SYMBOL TABLE)\n\
         ===========================\n\
         Scope name: global\n\
         Scope level: 1\n\
         Enclosing scope: None\n\
         \n\
         Scope (Scoped symbol table) contents\n\
         ------------------------------------\n\
         Alpha = <Procedural(name='Alpha', parameters=[name='a', type='INTEGER'])>\n\
         INTEGER = <BuiltIn(name='INTEGER')>\n\
         REAL = <BuiltIn(name='REAL')>\n\
         x = <Var(name='x', type='REAL')>\n\
         y = <Var(name='y', type='REAL')>\n"
    );
}
