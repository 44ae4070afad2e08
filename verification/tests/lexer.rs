use pascal_interp::errors::Error;
use pascal_interp::lexer::{check_literals, Lexer};
use pascal_interp::token::{Kind, Token};
use pascal_interp::var_type::VarType;

fn tokens(source: &str) -> Result<Vec<Token>, Error> {
    assert!(check_literals(source));
    let mut lexer = Lexer::new(source)?;
    let mut out = Vec::new();
    loop {
        let token = lexer.next_token()?;
        let done = matches!(token.kind, Kind::EOF);
        out.push(token);
        if done {
            return Ok(out);
        }
    }
}

fn kinds(source: &str) -> Vec<String> {
    tokens(source).unwrap().iter().map(|t| format!("{:?}", t.kind)).collect()
}

#[test]
fn words_are_reserved_with_regard_to_case() {
    let got = tokens("PROGRAM program VAR BEGIN END DIV PROCEDURE INTEGER REAL Begin x1").unwrap();
    assert!(matches!(got[0].kind, Kind::PROGRAM));
    assert!(matches!(&got[1].kind, Kind::ID(s) if s == "program"));
    assert!(matches!(got[2].kind, Kind::VAR));
    assert!(matches!(got[3].kind, Kind::BEGIN));
    assert!(matches!(got[4].kind, Kind::END));
    assert!(matches!(got[5].kind, Kind::INTEGER_DIV));
    assert!(matches!(got[6].kind, Kind::PROCEDURE));
    assert!(matches!(got[7].kind, Kind::TYPE(VarType::INTEGER)));
    assert!(matches!(got[8].kind, Kind::TYPE(VarType::REAL)));
    assert!(matches!(&got[9].kind, Kind::ID(s) if s == "Begin"));
    assert!(matches!(&got[10].kind, Kind::ID(s) if s == "x1"));
    assert!(matches!(got[11].kind, Kind::EOF));
}

#[test]
fn punctuation_and_assignment() {
    assert_eq!(
        kinds("; * - + / , : ( ) . := :"),
        vec![
            "SEMI", "MUL", "MINUS", "PLUS", "FLOAT_DIV", "COMMA", "COLON", "LPAREN", "RPAREN",
            "DOT", "ASSIGN", "COLON", "EOF"
        ]
    );
}

#[test]
fn numbers_are_integers_or_reals() {
    let got = tokens("12 3.5 7. 1.2.3 0.1").unwrap();
    assert!(matches!(got[0].kind, Kind::INTEGER_CONST(12)));
    assert!(matches!(got[1].kind, Kind::REAL_CONST(r) if r.to_bits() == 3.5f32.to_bits()));
    assert!(matches!(got[2].kind, Kind::REAL_CONST(r) if r.to_bits() == 7.0f32.to_bits()));
    assert!(matches!(got[3].kind, Kind::REAL_CONST(r) if r.to_bits() == 1.2f32.to_bits()));
    assert!(matches!(got[4].kind, Kind::DOT));
    assert!(matches!(got[5].kind, Kind::INTEGER_CONST(3)));
    assert!(matches!(got[6].kind, Kind::REAL_CONST(r) if r.to_bits() == 0.1f32.to_bits()));
    assert!(matches!(got[7].kind, Kind::EOF));
}

#[test]
fn comments_and_white_space_are_passed_over() {
    assert_eq!(kinds("{ a comment } a {another\n one}\t\r\n b { open"), vec![
        "ID(\"a\")", "ID(\"b\")", "EOF"
    ]);
}

#[test]
fn comments_do_not_nest() {
    assert_eq!(kinds("{ a { b } c"), vec!["ID(\"c\")", "EOF"]);
    assert!(matches!(tokens("{ a { b } } c"), Err(Error::INVALID_CHARACTER('}'))));
    assert_eq!(kinds("{}{}x{}"), vec!["ID(\"x\")", "EOF"]);
}

#[test]
fn a_stray_character_is_refused() {
    assert!(matches!(tokens("a := 1 ? 2"), Err(Error::INVALID_CHARACTER('?'))));
    assert!(matches!(tokens("x } y"), Err(Error::INVALID_CHARACTER('}'))));
    assert!(matches!(tokens("é"), Err(Error::INVALID_CHARACTER('é'))));
}

#[test]
fn integer_literals_must_fit() {
    assert!(matches!(tokens("2147483647").unwrap()[0].kind, Kind::INTEGER_CONST(2147483647)));
    assert!(matches!(tokens("0002147483647").unwrap()[0].kind, Kind::INTEGER_CONST(2147483647)));
    assert!(check_literals("a := 2147483647 + 1"));
    assert!(!check_literals("2147483648"));
    assert!(!check_literals("a := 1; b := 99999999999999999999"));
    assert!(check_literals("99999999999999999999.0"));
    assert!(check_literals("99999999999999999999."));
    assert!(check_literals("{ 99999999999999999999 } x99999999999999999999"));
    assert!(check_literals("a ? 99999999999999999999"));
    assert!(!check_literals("a 99999999999999999999 ?"));
    assert!(check_literals(""));
}

#[test]
fn only_a_character_that_starts_no_token_is_refused() {
    for c in ['_', '=', '}', '@', '!', '"', '#', '$', '%', '&', '[', ']', '<', '>', '\\', 'é'] {
        let text = format!("x {{c}} {}", c);
        match tokens(&text) {
            Err(Error::INVALID_CHARACTER(got)) => assert_eq!(got, c),
            other => panic!("{:?}", other),
        }
    }
    for text in ["a", "Z", "0", "9", ";", "*", "-", "+", "/", ",", ":", "(", ")", "."] {
        assert!(tokens(text).is_ok(), "{}", text);
    }
}

#[test]
fn the_end_of_the_text_repeats() {
    let mut lexer = Lexer::new("a").unwrap();
    assert!(matches!(lexer.next_token().unwrap().kind, Kind::ID(_)));
    for _ in 0..3 {
        let t = lexer.next_token().unwrap();
        assert!(matches!(t.kind, Kind::EOF));
        assert_eq!((t.lineno, t.column), (0, 0));
    }
    let mut empty = Lexer::new("").unwrap();
    assert!(matches!(empty.next_token().unwrap().kind, Kind::EOF));
}

#[test]
fn tokens_carry_line_and_column() {
    let got = tokens("PROGRAM p;\n  x := 10\n{c}\ny").unwrap();
    let places: Vec<(usize, usize)> = got.iter().map(|t| (t.lineno, t.column)).collect();
    assert_eq!(places, vec![(1, 1), (1, 9), (1, 10), (2, 3), (2, 5), (2, 8), (4, 1), (0, 0)]);
}

#[test]
fn decimal_numerals_round_as_the_machine_does() {
    let cases = [
        "0.", "0.0", "1.5", "3.14159274101257324", "16777217.", "16777216.5", "16777217.5",
        "0.1", "0.2", "0.3", "123456789.125", "340282346638528859811704183484516925440.",
        "340282356779733661637539395458142568447.", "340282356779733661637539395458142568448.",
        "999999999999999999999999999999999999999999.", "0.000000000000000000000000000000000000000000001",
        "0.0000000000000000000000000000000000000000000007006492321624085",
        "0.0000000000000000000000000000000000000000000007006492321624086",
        "0.00000000000000000000000000000000000001175494350822287507968736537222245677818665556772087",
        "1.00000005960464477539062", "1.000000059604644775390625", "1.0000000596046447753906251",
        "1.00000017881393432617187", "1.000000178813934326171875", "1.0000001788139343261718751",
        "170141183460469231731687303715884105728.", "2.5", "33554434.", "33554435.", "33554436.9",
        "4294967295.5", "0.5", "0.25", "0.75", "8388608.5", "8388609.5", "5.", "007.50",
    ];
    for text in cases.iter() {
        let got = tokens(text).unwrap();
        let want: f32 = text.parse().unwrap();
        assert!(
            matches!(got[0].kind, Kind::REAL_CONST(r) if r.to_bits() == want.to_bits()),
            "{} gave {:?}, the machine {:08x}",
            text,
            got[0].kind,
            want.to_bits()
        );
    }
}

#[test]
fn decimal_numerals_of_every_size_round_as_the_machine_does() {
    let mut state: u64 = 0x5DEE_CE66_D123_4567;
    let mut step = move || {
        state = state.wrapping_mul(6364136223846793005).wrapping_add(1442695040888963407);
        (state >> 33) as usize
    };
    for _ in 0..3000 {
        let mut text = String::new();
        let zeros = step() % 3;
        for _ in 0..zeros {
            text.push('0');
        }
        let whole = step() % 45;
        for _ in 0..whole {
            text.push((b'0' + (step() % 10) as u8) as char);
        }
        if text.is_empty() {
            text.push('0');
        }
        text.push('.');
        let leading = if step() % 3 == 0 { step() % 50 } else { 0 };
        for _ in 0..leading {
            text.push('0');
        }
        let fraction = step() % 60;
        for _ in 0..fraction {
            text.push((b'0' + (step() % 10) as u8) as char);
        }
        let got = tokens(&text).unwrap();
        let want: f32 = text.parse().unwrap();
        assert!(
            matches!(got[0].kind, Kind::REAL_CONST(r) if r.to_bits() == want.to_bits()),
            "{} gave {:?}, the machine {:08x}",
            text,
            got[0].kind,
            want.to_bits()
        );
    }
}
