use pascal_interp::errors::Error;
use pascal_interp::lexer::check_literals;
use pascal_interp::parser::parse_source;
use pascal_interp::semantic::{depth_within, SemanticAnalyzer};
use pascal_interp::symbols::{ScopedSymbolTable, Symbol};
use pascal_interp::token::Kind;
use pascal_interp::var_type::VarType;

fn analyzed(source: &str) -> Result<SemanticAnalyzer, Error> {
    assert!(check_literals(source));
    let tree = parse_source(source).unwrap();
    let mut analyzer = SemanticAnalyzer::new();
    analyzer.visit_node(&tree)?;
    Ok(analyzer)
}

fn failure(source: &str) -> String {
    match analyzed(source) {
        Err(Error::DUPLICATE_ID(t)) => format!("duplicate {:?} {}:{}", t.kind, t.lineno, t.column),
        Err(Error::ID_NOT_FOUND(t)) => format!("missing {:?} {}:{}", t.kind, t.lineno, t.column),
        Err(other) => format!("{:?}", other),
        Ok(_) => String::from("fine"),
    }
}

fn names(scope: &ScopedSymbolTable) -> Vec<String> {
    (0..scope.symbol_count()).map(|i| scope.symbol_at(i).name()).collect()
}

#[test]
fn a_name_declared_twice_in_one_scope_is_a_duplicate() {
    assert_eq!(
        failure("PROGRAM P; VAR a : INTEGER; a : INTEGER; BEGIN END."),
        "duplicate ID(\"a\") 1:29"
    );
    assert_eq!(
        failure("PROGRAM P; VAR a : INTEGER; b : REAL; a : REAL; BEGIN END."),
        "duplicate ID(\"a\") 1:39"
    );
    assert_eq!(failure("PROGRAM P; VAR a, a : REAL; BEGIN END."), "duplicate ID(\"a\") 1:19");
    assert_eq!(
        failure("PROGRAM P; PROCEDURE Q(x : REAL); VAR x : INTEGER; BEGIN END; BEGIN END."),
        "duplicate ID(\"x\") 1:39"
    );
}

#[test]
fn a_reserved_word_cannot_be_declared() {
    assert!(matches!(
        parse_source("PROGRAM P; VAR INTEGER : REAL; BEGIN END."),
        Err(Error::UNEXPECTED_TOKEN(t)) if matches!(t.kind, Kind::TYPE(VarType::INTEGER))
    ));
}

#[test]
fn a_name_may_shadow_one_of_an_outer_scope() {
    assert_eq!(
        failure(
            "PROGRAM P; VAR a : INTEGER; PROCEDURE Q; VAR a : REAL; BEGIN a := 1 END; BEGIN END."
        ),
        "fine"
    );
    assert_eq!(
        failure("PROGRAM P; VAR a : INTEGER; PROCEDURE Q(a : REAL); BEGIN END; BEGIN END."),
        "fine"
    );
}

#[test]
fn a_name_without_a_declaration_is_not_found() {
    assert_eq!(failure("PROGRAM P; BEGIN a := 1 END."), "missing ID(\"a\") 1:18");
    assert_eq!(
        failure("PROGRAM P; VAR a : INTEGER; BEGIN a := b END."),
        "missing ID(\"b\") 1:40"
    );
    assert_eq!(
        failure("PROGRAM P; VAR a : INTEGER; BEGIN a := 1 + (2 * -c) END."),
        "missing ID(\"c\") 1:50"
    );
    assert_eq!(
        failure("PROGRAM P; VAR a : INTEGER; BEGIN a := x + y END."),
        "missing ID(\"x\") 1:40"
    );
    assert_eq!(
        failure("PROGRAM P; VAR a : INTEGER; BEGIN z := y END."),
        "missing ID(\"z\") 1:35"
    );
}

#[test]
fn inner_scopes_see_outer_names_and_not_the_other_way_round() {
    assert_eq!(
        failure(
            "PROGRAM P; VAR g : INTEGER; \
             PROCEDURE Q(p : REAL); VAR l : INTEGER; \
             PROCEDURE R; BEGIN g := p + l END; \
             BEGIN l := g END; \
             BEGIN g := 1 END."
        ),
        "fine"
    );
    assert_eq!(
        failure("PROGRAM P; PROCEDURE Q; VAR l : INTEGER; BEGIN END; BEGIN l := 1 END."),
        "missing ID(\"l\") 1:59"
    );
    assert_eq!(
        failure("PROGRAM P; PROCEDURE Q(p : REAL); BEGIN END; BEGIN p := 1 END."),
        "missing ID(\"p\") 1:52"
    );
    assert_eq!(
        failure(
            "PROGRAM P; PROCEDURE Q; VAR l : REAL; BEGIN END; PROCEDURE R; BEGIN l := 1 END; BEGIN END."
        ),
        "missing ID(\"l\") 1:69"
    );
}

#[test]
fn the_scopes_are_put_on_record_as_they_are_left() {
    let analyzer = analyzed(
        "PROGRAM Main; VAR y, x : REAL; \
         PROCEDURE Alpha(b : INTEGER; a : REAL); VAR z : INTEGER; \
         PROCEDURE Beta; BEGIN END; BEGIN END; \
         BEGIN END.",
    )
    .unwrap();
    assert_eq!(analyzer.scope_count(), 3);
    let beta = analyzer.scope_at(0);
    assert_eq!(beta.scope.scope_name(), "Beta");
    assert_eq!(beta.scope.scope_level(), 3);
    assert_eq!(beta.enclosing_name, "Alpha");
    assert_eq!(names(&beta.scope), Vec::<String>::new());
    let alpha = analyzer.scope_at(1);
    assert_eq!(alpha.scope.scope_name(), "Alpha");
    assert_eq!(alpha.scope.scope_level(), 2);
    assert_eq!(alpha.enclosing_name, "global");
    assert_eq!(names(&alpha.scope), vec!["Beta", "a", "b", "z"]);
    let global = analyzer.scope_at(2);
    assert_eq!(global.scope.scope_name(), "global");
    assert_eq!(global.scope.scope_level(), 1);
    assert_eq!(global.enclosing_name, "None");
    assert_eq!(names(&global.scope), vec!["Alpha", "INTEGER", "REAL", "x", "y"]);
    assert!(matches!(
        global.scope.symbol_at(0),
        Symbol::Procedure { name, params }
            if name == "Alpha" && params.len() == 2 && params[0].id == "b"
                && params[0].ttype == VarType::INTEGER && params[1].ttype == VarType::REAL
    ));
    assert!(matches!(global.scope.symbol_at(1), Symbol::BuiltIn { name } if name == "INTEGER"));
    assert!(matches!(
        global.scope.symbol_at(3),
        Symbol::Var { name, kind: VarType::REAL } if name == "x"
    ));
    assert_eq!(analyzer.current_scope().scope_level(), 0);
    assert_eq!(analyzer.current_scope().scope_name(), "None");
}

#[test]
fn a_scoped_table_by_itself() {
    let mut global = ScopedSymbolTable::new(String::from("global"), 1);
    assert!(matches!(global.lookup("INTEGER"), Some(Symbol::BuiltIn { .. })));
    assert!(matches!(global.lookup_current_only("REAL"), Some(Symbol::BuiltIn { .. })));
    assert!(global.lookup("x").is_none());
    global.set_enclosing_scope(ScopedSymbolTable::new(String::from("None"), 0));
    global.insert(Symbol::Var { name: String::from("x"), kind: VarType::REAL });
    let mut inner = ScopedSymbolTable::new(String::from("inner"), 2);
    assert!(inner.lookup("INTEGER").is_none());
    inner.set_enclosing_scope(global);
    inner.insert(Symbol::Var { name: String::from("y"), kind: VarType::INTEGER });
    assert!(matches!(inner.lookup("x"), Some(Symbol::Var { kind: VarType::REAL, .. })));
    assert!(matches!(inner.lookup("INTEGER"), Some(Symbol::BuiltIn { .. })));
    assert!(inner.lookup_current_only("x").is_none());
    assert!(inner.lookup_current_only("y").is_some());
    inner.insert(Symbol::Var { name: String::from("x"), kind: VarType::INTEGER });
    assert!(matches!(inner.lookup("x"), Some(Symbol::Var { kind: VarType::INTEGER, .. })));
    assert_eq!(inner.enclosing_name().map(|s| s.as_str()), Some("global"));
    let outer = inner.enclosing_scope();
    assert_eq!(outer.scope_level(), 1);
    assert!(outer.lookup("y").is_none());
    assert!(matches!(outer.lookup("x"), Some(Symbol::Var { kind: VarType::REAL, .. })));
    assert!(inner.enclosing_name().is_none());
    assert!(inner.lookup("INTEGER").is_none());
}

#[test]
fn the_root_scope_is_not_searched_from_inside() {
    let mut root = ScopedSymbolTable::new(String::from("None"), 0);
    root.insert(Symbol::Var { name: String::from("hidden"), kind: VarType::REAL });
    assert!(root.lookup("hidden").is_some());
    let mut global = ScopedSymbolTable::new(String::from("global"), 1);
    global.set_enclosing_scope(root);
    assert!(global.lookup("hidden").is_none());
}

#[test]
fn the_depth_of_the_scopes_is_decidable() {
    let tree = parse_source(
        "PROGRAM P; PROCEDURE A; PROCEDURE B; BEGIN END; BEGIN END; PROCEDURE C; BEGIN END; BEGIN END.",
    )
    .unwrap();
    assert!(!depth_within(&tree, 0));
    assert!(!depth_within(&tree, 2));
    assert!(depth_within(&tree, 3));
    assert!(depth_within(&tree, usize::MAX));
    let flat = parse_source("PROGRAM P; BEGIN END.").unwrap();
    assert!(!depth_within(&flat, 0));
    assert!(depth_within(&flat, 1));
}

#[test]
fn a_local_variable_must_not_take_the_name_of_a_parameter() {
    for (first, second) in [("INTEGER", "INTEGER"), ("INTEGER", "REAL"), ("REAL", "INTEGER"), ("REAL", "REAL")] {
        let source = format!(
            "PROGRAM P; PROCEDURE Q(a, n : {}); VAR b : REAL; n : {}; BEGIN END; BEGIN END.",
            first, second
        );
        assert_eq!(failure(&source), "duplicate ID(\"n\") 1:".to_string() + &format!("{}", 48 + first.len()));
        let twice = format!("PROGRAM P; VAR n : {}; m : REAL; n : {}; BEGIN END.", first, second);
        assert_eq!(failure(&twice), "duplicate ID(\"n\") 1:".to_string() + &format!("{}", 32 + first.len()));
    }
}
