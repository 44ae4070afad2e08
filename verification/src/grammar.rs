//! The grammar: what tree a text holds, rule by rule.
use crate::ast::{AstView, ParamView};
use crate::errors::ErrorView;
use crate::lexer::{lemma_scan_bounds, scan, token_at};
use crate::token::{KindView, Tag, TokenView};
use crate::var_type::VarType;
use vstd::prelude::*;

verus! {

/// Where a parse stands: the token it looks at, and the position in the text
/// up to which the lexer has read, which is where that token ends.
pub struct Cursor {
    pub token: TokenView,
    pub pos: int,
}

/// What a grammar rule gives: what it built and where the parse then stands,
/// or the first error.
pub type Parsed<T> = Result<(T, Cursor), ErrorView>;

/// How much is left to parse: the characters not yet read, and the token
/// looked at unless it is the end of the text.
pub open spec fn measure(text: Seq<char>, c: Cursor) -> nat {
    let unread = if c.pos < text.len() {
        (text.len() - c.pos) as nat
    } else {
        0nat
    };
    if c.token.kind is EOF {
        unread
    } else {
        unread + 1
    }
}

/// The parse does not stand earlier at `after` than at `before`.
pub open spec fn no_earlier(text: Seq<char>, before: Cursor, after: Cursor) -> bool {
    measure(text, after) <= measure(text, before)
}

/// What a rule gives when the parse would go backwards. It never does: the
/// progress lemmas below show that every rule leaves the parse where it was
/// or further on, so the tests on the measure in the rules always succeed.
/// The tests are there for the rules to be well-founded definitions.
pub open spec fn stuck<T>(c: Cursor) -> Parsed<T> {
    Err(ErrorView::UNEXPECTED_TOKEN(c.token))
}

/// Reading the token that follows position `pos`.
#[verifier::opaque]
pub open spec fn advance(text: Seq<char>, pos: int) -> Result<Cursor, ErrorView> {
    let found = scan(text, pos);
    match found.result {
        Ok(kind) => Ok(Cursor { token: token_at(text, kind, found.start), pos: found.end }),
        Err(c) => Err(ErrorView::INVALID_CHARACTER(c)),
    }
}

/// Expecting a token of kind `tag`, whatever value it carries: if the token
/// looked at is one, the parse moves on to the next token; if not, that token
/// is the error.
pub open spec fn eat(text: Seq<char>, c: Cursor, tag: Tag) -> Result<Cursor, ErrorView> {
    if c.token.kind.tag() == tag {
        advance(text, c.pos)
    } else {
        Err(ErrorView::UNEXPECTED_TOKEN(c.token))
    }
}

/// Moving on from a token that is not the end of the text leaves less to
/// parse.
pub proof fn lemma_advance_progress(text: Seq<char>, c: Cursor)
    requires
        !(c.token.kind is EOF),
    ensures
        advance(text, c.pos) matches Ok(next) ==> measure(text, next) < measure(text, c),
{
    reveal(advance);
    if 0 <= c.pos <= text.len() {
        lemma_scan_bounds(text, c.pos);
    } else {
        reveal_with_fuel(crate::lexer::skip, 2);
    }
}

/// The name that an identifier token carries.
pub open spec fn id_name(token: TokenView) -> Seq<char> {
    match token.kind {
        KindView::ID(name) => name,
        _ => Seq::empty(),
    }
}

/// `variable := ID`
pub open spec fn variable(text: Seq<char>, c: Cursor) -> Parsed<AstView> {
    match eat(text, c, Tag::ID) {
        Ok(next) => Ok((AstView::Var { id: id_name(c.token), token: c.token }, next)),
        Err(e) => Err(e),
    }
}

/// `type_spec := INTEGER | REAL`
pub open spec fn type_spec(text: Seq<char>, c: Cursor) -> Parsed<VarType> {
    match eat(text, c, Tag::TYPE) {
        Ok(next) => Ok((c.token.kind->TYPE_0, next)),
        Err(e) => Err(e),
    }
}

/// `ID (COMMA ID)*`: the identifier tokens, added to `acc`.
pub open spec fn id_list(text: Seq<char>, c: Cursor, acc: Seq<TokenView>) -> Parsed<
    Seq<TokenView>,
>
    decreases measure(text, c),
{
    match eat(text, c, Tag::ID) {
        Ok(c1) => if c1.token.kind is COMMA {
            match eat(text, c1, Tag::COMMA) {
                Ok(c2) => {
                    proof {
                        lemma_advance_progress(text, c);
                        lemma_advance_progress(text, c1);
                    }
                    id_list(text, c2, acc.push(c.token))
                },
                Err(e) => Err(e),
            }
        } else {
            Ok((acc.push(c.token), c1))
        },
        Err(e) => Err(e),
    }
}

/// The declarations of the variables named by `ids`, all of type `var_type`.
pub open spec fn var_decls(ids: Seq<TokenView>, var_type: VarType) -> Seq<AstView> {
    Seq::new(
        ids.len(),
        |i: int| AstView::VarDecl { id: id_name(ids[i]), var_type, token: ids[i] },
    )
}

/// The parameters named by `ids`, all of type `ttype`.
pub open spec fn params_of(ids: Seq<TokenView>, ttype: VarType) -> Seq<ParamView> {
    Seq::new(ids.len(), |i: int| ParamView { id: id_name(ids[i]), ttype })
}

/// `var_decl := ID (COMMA ID)* COLON type_spec`: one declaration for each
/// identifier, carrying the identifier's token.
pub open spec fn variable_declaration(text: Seq<char>, c: Cursor) -> Parsed<Seq<AstView>> {
    match id_list(text, c, Seq::empty()) {
        Ok((ids, c1)) => match eat(text, c1, Tag::COLON) {
            Ok(c2) => match type_spec(text, c2) {
                Ok((var_type, c3)) => Ok((var_decls(ids, var_type), c3)),
                Err(e) => Err(e),
            },
            Err(e) => Err(e),
        },
        Err(e) => Err(e),
    }
}

/// `formal_parameters := ID (COMMA ID)* COLON type_spec`
pub open spec fn formal_parameters(text: Seq<char>, c: Cursor) -> Parsed<Seq<ParamView>> {
    match id_list(text, c, Seq::empty()) {
        Ok((ids, c1)) => match eat(text, c1, Tag::COLON) {
            Ok(c2) => match type_spec(text, c2) {
                Ok((ttype, c3)) => Ok((params_of(ids, ttype), c3)),
                Err(e) => Err(e),
            },
            Err(e) => Err(e),
        },
        Err(e) => Err(e),
    }
}

/// `formal_parameters (SEMI formal_parameters)*`, added to `acc`.
pub open spec fn parameter_groups(text: Seq<char>, c: Cursor, acc: Seq<ParamView>) -> Parsed<
    Seq<ParamView>,
>
    decreases measure(text, c),
{
    match formal_parameters(text, c) {
        Ok((group, c1)) => if c1.token.kind is SEMI {
            match eat(text, c1, Tag::SEMI) {
                Ok(c2) => if measure(text, c2) < measure(text, c) {
                    parameter_groups(text, c2, acc + group)
                } else {
                    stuck(c2)
                },
                Err(e) => Err(e),
            }
        } else {
            Ok((acc + group, c1))
        },
        Err(e) => Err(e),
    }
}

/// `formal_parameter_list := (formal_parameters (SEMI formal_parameters)*)?`
pub open spec fn formal_parameter_list(text: Seq<char>, c: Cursor) -> Parsed<Seq<ParamView>> {
    if c.token.kind is ID {
        parameter_groups(text, c, Seq::empty())
    } else {
        Ok((Seq::empty(), c))
    }
}

/// `(var_decl SEMI)+`, added to `acc`.
pub open spec fn var_section(text: Seq<char>, c: Cursor, acc: Seq<AstView>) -> Parsed<
    Seq<AstView>,
>
    decreases measure(text, c),
{
    match variable_declaration(text, c) {
        Ok((decls, c1)) => match eat(text, c1, Tag::SEMI) {
            Ok(c2) => if c2.token.kind is ID {
                if measure(text, c2) < measure(text, c) {
                    var_section(text, c2, acc + decls)
                } else {
                    stuck(c2)
                }
            } else {
                Ok((acc + decls, c2))
            },
            Err(e) => Err(e),
        },
        Err(e) => Err(e),
    }
}

/// `(LPAREN formal_parameter_list RPAREN)?`
pub open spec fn procedure_parameters(text: Seq<char>, c: Cursor) -> Parsed<Seq<ParamView>> {
    if c.token.kind is LPAREN {
        match eat(text, c, Tag::LPAREN) {
            Ok(c1) => match formal_parameter_list(text, c1) {
                Ok((params, c2)) => match eat(text, c2, Tag::RPAREN) {
                    Ok(c3) => Ok((params, c3)),
                    Err(e) => Err(e),
                },
                Err(e) => Err(e),
            },
            Err(e) => Err(e),
        }
    } else {
        Ok((Seq::empty(), c))
    }
}

/// `PROCEDURE ID (LPAREN formal_parameter_list RPAREN)? SEMI`: the name and
/// the parameters.
pub open spec fn procedure_head(text: Seq<char>, c: Cursor) -> Parsed<(Seq<char>, Seq<ParamView>)> {
    match eat(text, c, Tag::PROCEDURE) {
        Ok(c1) => match eat(text, c1, Tag::ID) {
            Ok(c2) => match procedure_parameters(text, c2) {
                Ok((params, c3)) => match eat(text, c3, Tag::SEMI) {
                    Ok(c4) => Ok(((id_name(c1.token), params), c4)),
                    Err(e) => Err(e),
                },
                Err(e) => Err(e),
            },
            Err(e) => Err(e),
        },
        Err(e) => Err(e),
    }
}

/// `(VAR (var_decl SEMI)+)?`
pub open spec fn var_part(text: Seq<char>, c: Cursor) -> Parsed<Seq<AstView>> {
    if c.token.kind is VAR {
        match eat(text, c, Tag::VAR) {
            Ok(c1) => var_section(text, c1, Seq::empty()),
            Err(e) => Err(e),
        }
    } else {
        Ok((Seq::empty(), c))
    }
}

/// `block := declarations compound_statement`
pub open spec fn block(text: Seq<char>, c: Cursor) -> Parsed<AstView>
    decreases measure(text, c), 9nat,
{
    match declarations(text, c) {
        Ok((decls, c1)) => match compound_statement(text, c1) {
            Ok((compound, c2)) => Ok(
                (
                    AstView::Block { declaration_nodes: decls, compound_nodes: Box::new(compound) },
                    c2,
                ),
            ),
            Err(e) => Err(e),
        },
        Err(e) => Err(e),
    }
}

/// `declarations := (VAR (var_decl SEMI)+)? (PROCEDURE ... SEMI block SEMI)*`
pub open spec fn declarations(text: Seq<char>, c: Cursor) -> Parsed<Seq<AstView>>
    decreases measure(text, c), 8nat,
{
    match var_part(text, c) {
        Ok((vars, c1)) => if no_earlier(text, c, c1) {
            procedures(text, c1, vars)
        } else {
            stuck(c1)
        },
        Err(e) => Err(e),
    }
}

/// `(PROCEDURE ID (LPAREN formal_parameter_list RPAREN)? SEMI block SEMI)*`,
/// added to `acc`.
pub open spec fn procedures(text: Seq<char>, c: Cursor, acc: Seq<AstView>) -> Parsed<Seq<AstView>>
    decreases measure(text, c), 7nat,
{
    if c.token.kind is PROCEDURE {
        match procedure_head(text, c) {
            Ok(((id, params), c1)) => if measure(text, c1) < measure(text, c) {
                match block(text, c1) {
                    Ok((body, c2)) => match eat(text, c2, Tag::SEMI) {
                        Ok(c3) => if measure(text, c3) < measure(text, c) {
                            procedures(
                                text,
                                c3,
                                acc.push(
                                    AstView::ProcedureDecl {
                                        id,
                                        params,
                                        block_node: Box::new(body),
                                    },
                                ),
                            )
                        } else {
                            stuck(c3)
                        },
                        Err(e) => Err(e),
                    },
                    Err(e) => Err(e),
                }
            } else {
                stuck(c1)
            },
            Err(e) => Err(e),
        }
    } else {
        Ok((acc, c))
    }
}

/// `compound_statement := BEGIN statement_list END`
pub open spec fn compound_statement(text: Seq<char>, c: Cursor) -> Parsed<AstView>
    decreases measure(text, c), 6nat,
{
    match eat(text, c, Tag::BEGIN) {
        Ok(c1) => {
            proof {
                lemma_advance_progress(text, c);
            }
            match statement_list(text, c1) {
                Ok((children, c2)) => match eat(text, c2, Tag::END) {
                    Ok(c3) => Ok((AstView::Compound { children }, c3)),
                    Err(e) => Err(e),
                },
                Err(e) => Err(e),
            }
        },
        Err(e) => Err(e),
    }
}

/// `statement_list := statement (SEMI statement)*`
pub open spec fn statement_list(text: Seq<char>, c: Cursor) -> Parsed<Seq<AstView>>
    decreases measure(text, c), 8nat,
{
    match statement(text, c) {
        Ok((first, c1)) => if no_earlier(text, c, c1) {
            more_statements(text, c1, seq![first])
        } else {
            stuck(c1)
        },
        Err(e) => Err(e),
    }
}

/// `(SEMI statement)*`, added to `acc`.
pub open spec fn more_statements(text: Seq<char>, c: Cursor, acc: Seq<AstView>) -> Parsed<
    Seq<AstView>,
>
    decreases measure(text, c), 7nat,
{
    if c.token.kind is SEMI {
        match eat(text, c, Tag::SEMI) {
            Ok(c1) => {
                proof {
                    lemma_advance_progress(text, c);
                }
                match statement(text, c1) {
                    Ok((next, c2)) => if no_earlier(text, c1, c2) {
                        more_statements(text, c2, acc.push(next))
                    } else {
                        stuck(c2)
                    },
                    Err(e) => Err(e),
                }
            },
            Err(e) => Err(e),
        }
    } else {
        Ok((acc, c))
    }
}

/// `statement := compound_statement | assignment_statement | empty`
pub open spec fn statement(text: Seq<char>, c: Cursor) -> Parsed<AstView>
    decreases measure(text, c), 7nat,
{
    if c.token.kind is BEGIN {
        compound_statement(text, c)
    } else if c.token.kind is ID {
        assignment_statement(text, c)
    } else {
        Ok((AstView::NoOp, c))
    }
}

/// `assignment_statement := variable ASSIGN expr`
pub open spec fn assignment_statement(text: Seq<char>, c: Cursor) -> Parsed<AstView> {
    match variable(text, c) {
        Ok((left, c1)) => match eat(text, c1, Tag::ASSIGN) {
            Ok(c2) => match expr(text, c2) {
                Ok((right, c3)) => Ok(
                    (
                        AstView::Assign {
                            left_id: id_name(c.token),
                            left: Box::new(left),
                            right: Box::new(right),
                        },
                        c3,
                    ),
                ),
                Err(e) => Err(e),
            },
            Err(e) => Err(e),
        },
        Err(e) => Err(e),
    }
}

/// `expr := term ((PLUS | MINUS) term)*`
pub open spec fn expr(text: Seq<char>, c: Cursor) -> Parsed<AstView>
    decreases measure(text, c), 5nat,
{
    match term(text, c) {
        Ok((left, c1)) => if no_earlier(text, c, c1) {
            more_terms(text, c1, left)
        } else {
            stuck(c1)
        },
        Err(e) => Err(e),
    }
}

/// `((PLUS | MINUS) term)*`, applied to `left` from left to right.
pub open spec fn more_terms(text: Seq<char>, c: Cursor, left: AstView) -> Parsed<AstView>
    decreases measure(text, c), 4nat,
{
    if c.token.kind is PLUS || c.token.kind is MINUS {
        match advance(text, c.pos) {
            Ok(c1) => {
                proof {
                    lemma_advance_progress(text, c);
                }
                match term(text, c1) {
                    Ok((right, c2)) => if no_earlier(text, c1, c2) {
                        more_terms(
                            text,
                            c2,
                            AstView::BinOp {
                                left: Box::new(left),
                                right: Box::new(right),
                                op: c.token.kind,
                            },
                        )
                    } else {
                        stuck(c2)
                    },
                    Err(e) => Err(e),
                }
            },
            Err(e) => Err(e),
        }
    } else {
        Ok((left, c))
    }
}

/// `term := factor ((MUL | INTEGER_DIV | REAL_DIV) factor)*`
pub open spec fn term(text: Seq<char>, c: Cursor) -> Parsed<AstView>
    decreases measure(text, c), 3nat,
{
    match factor(text, c) {
        Ok((left, c1)) => if no_earlier(text, c, c1) {
            more_factors(text, c1, left)
        } else {
            stuck(c1)
        },
        Err(e) => Err(e),
    }
}

/// `((MUL | INTEGER_DIV | REAL_DIV) factor)*`, applied to `left` from left to
/// right.
pub open spec fn more_factors(text: Seq<char>, c: Cursor, left: AstView) -> Parsed<AstView>
    decreases measure(text, c), 2nat,
{
    if c.token.kind is MUL || c.token.kind is INTEGER_DIV || c.token.kind is FLOAT_DIV {
        match advance(text, c.pos) {
            Ok(c1) => {
                proof {
                    lemma_advance_progress(text, c);
                }
                match factor(text, c1) {
                    Ok((right, c2)) => if no_earlier(text, c1, c2) {
                        more_factors(
                            text,
                            c2,
                            AstView::BinOp {
                                left: Box::new(left),
                                right: Box::new(right),
                                op: c.token.kind,
                            },
                        )
                    } else {
                        stuck(c2)
                    },
                    Err(e) => Err(e),
                }
            },
            Err(e) => Err(e),
        }
    } else {
        Ok((left, c))
    }
}

/// `factor := (PLUS | MINUS) factor | INTEGER_CONST | REAL_CONST
///          | LPAREN expr RPAREN | variable`
pub open spec fn factor(text: Seq<char>, c: Cursor) -> Parsed<AstView>
    decreases measure(text, c), 1nat,
{
    match c.token.kind {
        KindView::PLUS | KindView::MINUS => match advance(text, c.pos) {
            Ok(c1) => {
                proof {
                    lemma_advance_progress(text, c);
                }
                match factor(text, c1) {
                    Ok((operand, c2)) => Ok(
                        (AstView::UnaryOp { op: c.token.kind, expr: Box::new(operand) }, c2),
                    ),
                    Err(e) => Err(e),
                }
            },
            Err(e) => Err(e),
        },
        KindView::INTEGER_CONST(value) => match advance(text, c.pos) {
            Ok(c1) => Ok((AstView::NumInteger { value }, c1)),
            Err(e) => Err(e),
        },
        KindView::REAL_CONST(value) => match advance(text, c.pos) {
            Ok(c1) => Ok((AstView::NumReal { value }, c1)),
            Err(e) => Err(e),
        },
        KindView::LPAREN => match advance(text, c.pos) {
            Ok(c1) => {
                proof {
                    lemma_advance_progress(text, c);
                }
                match expr(text, c1) {
                    Ok((inner, c2)) => match eat(text, c2, Tag::RPAREN) {
                        Ok(c3) => Ok((inner, c3)),
                        Err(e) => Err(e),
                    },
                    Err(e) => Err(e),
                }
            },
            Err(e) => Err(e),
        },
        KindView::ID(_) => variable(text, c),
        _ => Err(ErrorView::UNEXPECTED_TOKEN(c.token)),
    }
}

/// `program := PROGRAM variable SEMI block DOT`
pub open spec fn program(text: Seq<char>, c: Cursor) -> Parsed<AstView> {
    match eat(text, c, Tag::PROGRAM) {
        Ok(c1) => match variable(text, c1) {
            Ok((name, c2)) => match eat(text, c2, Tag::SEMI) {
                Ok(c3) => match block(text, c3) {
                    Ok((body, c4)) => match eat(text, c4, Tag::DOT) {
                        Ok(c5) => Ok(
                            (
                                AstView::Program {
                                    name: id_name(c1.token),
                                    block: Box::new(body),
                                },
                                c5,
                            ),
                        ),
                        Err(e) => Err(e),
                    },
                    Err(e) => Err(e),
                },
                Err(e) => Err(e),
            },
            Err(e) => Err(e),
        },
        Err(e) => Err(e),
    }
}

/// The tree of a whole source text: a program, after which the text must
/// end; or the first error.
pub open spec fn parse_text(text: Seq<char>) -> Result<AstView, ErrorView> {
    match advance(text, 0) {
        Ok(c) => match program(text, c) {
            Ok((tree, end)) => if end.token.kind is EOF {
                Ok(tree)
            } else {
                Err(ErrorView::UNEXPECTED_TOKEN(end.token))
            },
            Err(e) => Err(e),
        },
        Err(e) => Err(e),
    }
}

/// Eating a token leaves less to parse.
pub proof fn lemma_eat_progress(text: Seq<char>, c: Cursor, tag: Tag)
    requires
        tag != Tag::EOF,
    ensures
        eat(text, c, tag) matches Ok(next) ==> measure(text, next) < measure(text, c),
{
    if c.token.kind.tag() == tag {
        lemma_advance_progress(text, c);
    }
}

/// A list of identifiers leaves less to parse.
pub proof fn lemma_id_list_progress(text: Seq<char>, c: Cursor, acc: Seq<TokenView>)
    ensures
        id_list(text, c, acc) matches Ok((_, end)) ==> measure(text, end) < measure(text, c),
    decreases measure(text, c),
{
    lemma_eat_progress(text, c, Tag::ID);
    if let Ok(c1) = eat(text, c, Tag::ID) {
        lemma_eat_progress(text, c1, Tag::COMMA);
        if c1.token.kind is COMMA {
            if let Ok(c2) = eat(text, c1, Tag::COMMA) {
                lemma_id_list_progress(text, c2, acc.push(c.token));
            }
        }
    }
}

/// A declaration of variables, and a group of parameters, leave less to
/// parse.
pub proof fn lemma_typed_names_progress(text: Seq<char>, c: Cursor)
    ensures
        variable_declaration(text, c) matches Ok((_, end)) ==> measure(text, end) < measure(
            text,
            c,
        ),
        formal_parameters(text, c) matches Ok((_, end)) ==> measure(text, end) < measure(text, c),
{
    lemma_id_list_progress(text, c, Seq::empty());
    if let Ok((ids, c1)) = id_list(text, c, Seq::empty()) {
        lemma_eat_progress(text, c1, Tag::COLON);
        if let Ok(c2) = eat(text, c1, Tag::COLON) {
            lemma_eat_progress(text, c2, Tag::TYPE);
        }
    }
}

/// The groups of a parameter list leave less to parse.
pub proof fn lemma_parameter_groups_progress(text: Seq<char>, c: Cursor, acc: Seq<ParamView>)
    ensures
        parameter_groups(text, c, acc) matches Ok((_, end)) ==> measure(text, end) < measure(
            text,
            c,
        ),
    decreases measure(text, c),
{
    lemma_typed_names_progress(text, c);
    if let Ok((group, c1)) = formal_parameters(text, c) {
        if c1.token.kind is SEMI {
            lemma_eat_progress(text, c1, Tag::SEMI);
            if let Ok(c2) = eat(text, c1, Tag::SEMI) {
                lemma_parameter_groups_progress(text, c2, acc + group);
            }
        }
    }
}

/// The declarations of a `VAR` section leave less to parse.
pub proof fn lemma_var_section_progress(text: Seq<char>, c: Cursor, acc: Seq<AstView>)
    ensures
        var_section(text, c, acc) matches Ok((_, end)) ==> measure(text, end) < measure(text, c),
    decreases measure(text, c),
{
    lemma_typed_names_progress(text, c);
    if let Ok((decls, c1)) = variable_declaration(text, c) {
        lemma_eat_progress(text, c1, Tag::SEMI);
        if let Ok(c2) = eat(text, c1, Tag::SEMI) {
            if c2.token.kind is ID {
                lemma_var_section_progress(text, c2, acc + decls);
            }
        }
    }
}

/// The head of a procedure leaves less to parse; the optional parts of the
/// declarations leave no more.
pub proof fn lemma_heads_progress(text: Seq<char>, c: Cursor)
    ensures
        procedure_head(text, c) matches Ok((_, end)) ==> measure(text, end) < measure(text, c),
        procedure_parameters(text, c) matches Ok((_, end)) ==> no_earlier(text, c, end),
        formal_parameter_list(text, c) matches Ok((_, end)) ==> no_earlier(text, c, end),
        var_part(text, c) matches Ok((_, end)) ==> no_earlier(text, c, end),
{
    lemma_parameter_groups_progress(text, c, Seq::empty());
    lemma_eat_progress(text, c, Tag::VAR);
    if let Ok(c1) = eat(text, c, Tag::VAR) {
        lemma_var_section_progress(text, c1, Seq::empty());
    }
    lemma_eat_progress(text, c, Tag::LPAREN);
    if let Ok(c1) = eat(text, c, Tag::LPAREN) {
        lemma_parameter_groups_progress(text, c1, Seq::empty());
        if let Ok((params, c2)) = formal_parameter_list(text, c1) {
            lemma_eat_progress(text, c2, Tag::RPAREN);
        }
    }
    lemma_eat_progress(text, c, Tag::PROCEDURE);
    if let Ok(c1) = eat(text, c, Tag::PROCEDURE) {
        lemma_eat_progress(text, c1, Tag::ID);
        if let Ok(c2) = eat(text, c1, Tag::ID) {
            lemma_eat_progress(text, c2, Tag::LPAREN);
            if let Ok(c3) = eat(text, c2, Tag::LPAREN) {
                lemma_parameter_groups_progress(text, c3, Seq::empty());
                if let Ok((params, c4)) = formal_parameter_list(text, c3) {
                    lemma_eat_progress(text, c4, Tag::RPAREN);
                }
            }
            if let Ok((params, c5)) = procedure_parameters(text, c2) {
                lemma_eat_progress(text, c5, Tag::SEMI);
            }
        }
    }
}

/// An expression never moves the parse backwards.
pub proof fn lemma_expr_progress(text: Seq<char>, c: Cursor)
    ensures
        expr(text, c) matches Ok((_, end)) ==> no_earlier(text, c, end),
    decreases measure(text, c), 5nat,
{
    lemma_term_progress(text, c);
    if let Ok((left, c1)) = term(text, c) {
        lemma_more_terms_progress(text, c1, left);
    }
}

/// Further terms never move the parse backwards.
pub proof fn lemma_more_terms_progress(text: Seq<char>, c: Cursor, left: AstView)
    ensures
        more_terms(text, c, left) matches Ok((_, end)) ==> no_earlier(text, c, end),
    decreases measure(text, c), 4nat,
{
    if c.token.kind is PLUS || c.token.kind is MINUS {
        lemma_advance_progress(text, c);
        if let Ok(c1) = advance(text, c.pos) {
            lemma_term_progress(text, c1);
            if let Ok((right, c2)) = term(text, c1) {
                lemma_more_terms_progress(
                    text,
                    c2,
                    AstView::BinOp {
                        left: Box::new(left),
                        right: Box::new(right),
                        op: c.token.kind,
                    },
                );
            }
        }
    }
}

/// A term never moves the parse backwards.
pub proof fn lemma_term_progress(text: Seq<char>, c: Cursor)
    ensures
        term(text, c) matches Ok((_, end)) ==> no_earlier(text, c, end),
    decreases measure(text, c), 3nat,
{
    lemma_factor_progress(text, c);
    if let Ok((left, c1)) = factor(text, c) {
        lemma_more_factors_progress(text, c1, left);
    }
}

/// Further factors never move the parse backwards.
pub proof fn lemma_more_factors_progress(text: Seq<char>, c: Cursor, left: AstView)
    ensures
        more_factors(text, c, left) matches Ok((_, end)) ==> no_earlier(text, c, end),
    decreases measure(text, c), 2nat,
{
    if c.token.kind is MUL || c.token.kind is INTEGER_DIV || c.token.kind is FLOAT_DIV {
        lemma_advance_progress(text, c);
        if let Ok(c1) = advance(text, c.pos) {
            lemma_factor_progress(text, c1);
            if let Ok((right, c2)) = factor(text, c1) {
                lemma_more_factors_progress(
                    text,
                    c2,
                    AstView::BinOp {
                        left: Box::new(left),
                        right: Box::new(right),
                        op: c.token.kind,
                    },
                );
            }
        }
    }
}

/// A factor leaves less to parse.
pub proof fn lemma_factor_progress(text: Seq<char>, c: Cursor)
    ensures
        factor(text, c) matches Ok((_, end)) ==> measure(text, end) < measure(text, c),
    decreases measure(text, c), 1nat,
{
    if starts_expression(c.token.kind) {
        lemma_advance_progress(text, c);
        lemma_eat_progress(text, c, Tag::ID);
        if let Ok(c1) = advance(text, c.pos) {
            if c.token.kind is PLUS || c.token.kind is MINUS {
                lemma_factor_progress(text, c1);
            }
            if c.token.kind is LPAREN {
                lemma_expr_progress(text, c1);
                if let Ok((inner, c2)) = expr(text, c1) {
                    lemma_eat_progress(text, c2, Tag::RPAREN);
                }
            }
        }
    }
}

/// A statement never moves the parse backwards.
pub proof fn lemma_statement_progress(text: Seq<char>, c: Cursor)
    ensures
        statement(text, c) matches Ok((_, end)) ==> no_earlier(text, c, end),
    decreases measure(text, c), 7nat,
{
    if c.token.kind is BEGIN {
        lemma_compound_statement_progress(text, c);
    } else if c.token.kind is ID {
        lemma_eat_progress(text, c, Tag::ID);
        if let Ok(c1) = eat(text, c, Tag::ID) {
            lemma_eat_progress(text, c1, Tag::ASSIGN);
            if let Ok(c2) = eat(text, c1, Tag::ASSIGN) {
                lemma_expr_progress(text, c2);
            }
        }
    }
}

/// A compound statement leaves less to parse.
pub proof fn lemma_compound_statement_progress(text: Seq<char>, c: Cursor)
    ensures
        compound_statement(text, c) matches Ok((_, end)) ==> measure(text, end) < measure(
            text,
            c,
        ),
    decreases measure(text, c), 6nat,
{
    lemma_eat_progress(text, c, Tag::BEGIN);
    if let Ok(c1) = eat(text, c, Tag::BEGIN) {
        lemma_statement_list_progress(text, c1);
        if let Ok((children, c2)) = statement_list(text, c1) {
            lemma_eat_progress(text, c2, Tag::END);
        }
    }
}

/// A list of statements never moves the parse backwards.
pub proof fn lemma_statement_list_progress(text: Seq<char>, c: Cursor)
    ensures
        statement_list(text, c) matches Ok((_, end)) ==> no_earlier(text, c, end),
    decreases measure(text, c), 8nat,
{
    lemma_statement_progress(text, c);
    if let Ok((first, c1)) = statement(text, c) {
        lemma_more_statements_progress(text, c1, seq![first]);
    }
}

/// Further statements never move the parse backwards.
pub proof fn lemma_more_statements_progress(text: Seq<char>, c: Cursor, acc: Seq<AstView>)
    ensures
        more_statements(text, c, acc) matches Ok((_, end)) ==> no_earlier(text, c, end),
    decreases measure(text, c), 7nat,
{
    if c.token.kind is SEMI {
        lemma_eat_progress(text, c, Tag::SEMI);
        if let Ok(c1) = eat(text, c, Tag::SEMI) {
            lemma_statement_progress(text, c1);
            if let Ok((next, c2)) = statement(text, c1) {
                lemma_more_statements_progress(text, c2, acc.push(next));
            }
        }
    }
}

/// A block never moves the parse backwards.
pub proof fn lemma_block_progress(text: Seq<char>, c: Cursor)
    ensures
        block(text, c) matches Ok((_, end)) ==> measure(text, end) < measure(text, c),
    decreases measure(text, c), 9nat,
{
    lemma_declarations_progress(text, c);
    if let Ok((decls, c1)) = declarations(text, c) {
        lemma_compound_statement_progress(text, c1);
    }
}

/// Declarations never move the parse backwards.
pub proof fn lemma_declarations_progress(text: Seq<char>, c: Cursor)
    ensures
        declarations(text, c) matches Ok((_, end)) ==> no_earlier(text, c, end),
    decreases measure(text, c), 8nat,
{
    lemma_heads_progress(text, c);
    if let Ok((vars, c1)) = var_part(text, c) {
        lemma_procedures_progress(text, c1, vars);
    }
}

/// Procedure declarations never move the parse backwards.
pub proof fn lemma_procedures_progress(text: Seq<char>, c: Cursor, acc: Seq<AstView>)
    ensures
        procedures(text, c, acc) matches Ok((_, end)) ==> no_earlier(text, c, end),
    decreases measure(text, c), 7nat,
{
    if c.token.kind is PROCEDURE {
        lemma_heads_progress(text, c);
        if let Ok(((id, params), c1)) = procedure_head(text, c) {
            lemma_block_progress(text, c1);
            if let Ok((body, c2)) = block(text, c1) {
                lemma_eat_progress(text, c2, Tag::SEMI);
                if let Ok(c3) = eat(text, c2, Tag::SEMI) {
                    lemma_procedures_progress(
                        text,
                        c3,
                        acc.push(
                            AstView::ProcedureDecl { id, params, block_node: Box::new(body) },
                        ),
                    );
                }
            }
        }
    }
}

/// Parsing is a function of the text: the same text gives the same tree, or
/// the same error.
pub proof fn lemma_parse_deterministic(first: Seq<char>, second: Seq<char>)
    requires
        first == second,
    ensures
        parse_text(first) == parse_text(second),
{
}

/// The kinds of token with which an expression can start.
pub open spec fn starts_expression(kind: KindView) -> bool {
    kind is PLUS || kind is MINUS || kind is INTEGER_CONST || kind is REAL_CONST || kind is LPAREN
        || kind is ID
}

/// An assignment whose right-hand side is missing is refused with the token
/// that follows `:=`: if the token after `:=` cannot start an expression, the
/// assignment fails as an unexpected token, and the error carries that token.
pub proof fn lemma_missing_right_hand_side(text: Seq<char>, c: Cursor)
    requires
        variable(text, c) is Ok,
        eat(text, variable(text, c)->Ok_0.1, Tag::ASSIGN) is Ok,
        !starts_expression(eat(text, variable(text, c)->Ok_0.1, Tag::ASSIGN)->Ok_0.token.kind),
    ensures
        assignment_statement(text, c) == Err::<(AstView, Cursor), ErrorView>(
            ErrorView::UNEXPECTED_TOKEN(
                eat(text, variable(text, c)->Ok_0.1, Tag::ASSIGN)->Ok_0.token,
            ),
        ),
{
    let after = eat(text, variable(text, c)->Ok_0.1, Tag::ASSIGN)->Ok_0;
    reveal_with_fuel(factor, 1);
    reveal_with_fuel(term, 1);
    reveal_with_fuel(expr, 1);
    assert(factor(text, after) == Err::<(AstView, Cursor), ErrorView>(
        ErrorView::UNEXPECTED_TOKEN(after.token),
    ));
}

/// The parse of a statement that starts at `c` gets to an assignment at `t`
/// before anything fails.
pub open spec fn statement_reaches(text: Seq<char>, c: Cursor, t: Cursor) -> bool
    decreases measure(text, c), 7nat,
{
    if c.token.kind is BEGIN {
        compound_reaches(text, c, t)
    } else {
        c.token.kind is ID && c == t
    }
}

/// The parse of a compound statement that starts at `c` gets to an
/// assignment at `t` before anything fails.
pub open spec fn compound_reaches(text: Seq<char>, c: Cursor, t: Cursor) -> bool
    decreases measure(text, c), 6nat,
{
    match eat(text, c, Tag::BEGIN) {
        Ok(c1) => {
            proof {
                lemma_advance_progress(text, c);
            }
            statements_reach(text, c1, t)
        },
        Err(_) => false,
    }
}

/// The parse of a list of statements that starts at `c` gets to an
/// assignment at `t` before anything fails.
pub open spec fn statements_reach(text: Seq<char>, c: Cursor, t: Cursor) -> bool
    decreases measure(text, c), 9nat,
{
    if statement_reaches(text, c, t) {
        true
    } else {
        match statement(text, c) {
            Ok((_, c1)) => if no_earlier(text, c, c1) {
                more_statements_reach(text, c1, t)
            } else {
                false
            },
            Err(_) => false,
        }
    }
}

/// The parse of the further statements of a list, from `c` on, gets to an
/// assignment at `t` before anything fails.
pub open spec fn more_statements_reach(text: Seq<char>, c: Cursor, t: Cursor) -> bool
    decreases measure(text, c), 8nat,
{
    if c.token.kind is SEMI {
        match eat(text, c, Tag::SEMI) {
            Ok(c1) => {
                proof {
                    lemma_advance_progress(text, c);
                }
                if statement_reaches(text, c1, t) {
                    true
                } else {
                    match statement(text, c1) {
                        Ok((_, c2)) => if no_earlier(text, c1, c2) {
                            more_statements_reach(text, c2, t)
                        } else {
                            false
                        },
                        Err(_) => false,
                    }
                }
            },
            Err(_) => false,
        }
    } else {
        false
    }
}

/// The parse of a block that starts at `c` gets to an assignment at `t`
/// before anything fails.
pub open spec fn block_reaches(text: Seq<char>, c: Cursor, t: Cursor) -> bool
    decreases measure(text, c), 9nat,
{
    if declarations_reach(text, c, t) {
        true
    } else {
        match declarations(text, c) {
            Ok((_, c1)) => compound_reaches(text, c1, t),
            Err(_) => false,
        }
    }
}

/// The parse of the declarations that start at `c` gets to an assignment at
/// `t` before anything fails.
pub open spec fn declarations_reach(text: Seq<char>, c: Cursor, t: Cursor) -> bool
    decreases measure(text, c), 8nat,
{
    match var_part(text, c) {
        Ok((_, c1)) => if no_earlier(text, c, c1) {
            procedures_reach(text, c1, t)
        } else {
            false
        },
        Err(_) => false,
    }
}

/// The parse of the procedure declarations that start at `c` gets to an
/// assignment at `t` before anything fails.
pub open spec fn procedures_reach(text: Seq<char>, c: Cursor, t: Cursor) -> bool
    decreases measure(text, c), 7nat,
{
    if c.token.kind is PROCEDURE {
        match procedure_head(text, c) {
            Ok((_, c1)) => if measure(text, c1) < measure(text, c) {
                if block_reaches(text, c1, t) {
                    true
                } else {
                    match block(text, c1) {
                        Ok((_, c2)) => match eat(text, c2, Tag::SEMI) {
                            Ok(c3) => if measure(text, c3) < measure(text, c) {
                                procedures_reach(text, c3, t)
                            } else {
                                false
                            },
                            Err(_) => false,
                        },
                        Err(_) => false,
                    }
                }
            } else {
                false
            },
            Err(_) => false,
        }
    } else {
        false
    }
}

/// The parse of a whole text gets to an assignment at `t` before anything
/// fails: what stands before the assignment is the beginning of a program.
pub open spec fn parse_reaches(text: Seq<char>, t: Cursor) -> bool {
    match advance(text, 0) {
        Ok(c) => match eat(text, c, Tag::PROGRAM) {
            Ok(c1) => match variable(text, c1) {
                Ok((_, c2)) => match eat(text, c2, Tag::SEMI) {
                    Ok(c3) => block_reaches(text, c3, t),
                    Err(_) => false,
                },
                Err(_) => false,
            },
            Err(_) => false,
        },
        Err(_) => false,
    }
}

/// An assignment that fails makes the statement fail that the parse reached
/// it from, with the same error.
pub proof fn lemma_statement_passes_on(text: Seq<char>, c: Cursor, t: Cursor, e: ErrorView)
    requires
        statement_reaches(text, c, t),
        assignment_statement(text, t) == Err::<(AstView, Cursor), ErrorView>(e),
    ensures
        statement(text, c) == Err::<(AstView, Cursor), ErrorView>(e),
    decreases measure(text, c), 7nat,
{
    if c.token.kind is BEGIN {
        lemma_compound_passes_on(text, c, t, e);
    }
}

/// An assignment that fails makes the compound statement fail that the parse
/// reached it from, with the same error.
pub proof fn lemma_compound_passes_on(text: Seq<char>, c: Cursor, t: Cursor, e: ErrorView)
    requires
        compound_reaches(text, c, t),
        assignment_statement(text, t) == Err::<(AstView, Cursor), ErrorView>(e),
    ensures
        compound_statement(text, c) == Err::<(AstView, Cursor), ErrorView>(e),
    decreases measure(text, c), 6nat,
{
    lemma_advance_progress(text, c);
    if let Ok(c1) = eat(text, c, Tag::BEGIN) {
        lemma_statements_pass_on(text, c1, t, e);
    }
}

/// An assignment that fails makes the list of statements fail that the parse
/// reached it from, with the same error.
pub proof fn lemma_statements_pass_on(text: Seq<char>, c: Cursor, t: Cursor, e: ErrorView)
    requires
        statements_reach(text, c, t),
        assignment_statement(text, t) == Err::<(AstView, Cursor), ErrorView>(e),
    ensures
        statement_list(text, c) == Err::<(Seq<AstView>, Cursor), ErrorView>(e),
    decreases measure(text, c), 9nat,
{
    if statement_reaches(text, c, t) {
        lemma_statement_passes_on(text, c, t, e);
    } else if let Ok((first, c1)) = statement(text, c) {
        lemma_more_statements_pass_on(text, c1, t, e, seq![first]);
    }
}

/// An assignment that fails makes the further statements fail that the parse
/// reached it from, with the same error.
pub proof fn lemma_more_statements_pass_on(
    text: Seq<char>,
    c: Cursor,
    t: Cursor,
    e: ErrorView,
    acc: Seq<AstView>,
)
    requires
        more_statements_reach(text, c, t),
        assignment_statement(text, t) == Err::<(AstView, Cursor), ErrorView>(e),
    ensures
        more_statements(text, c, acc) == Err::<(Seq<AstView>, Cursor), ErrorView>(e),
    decreases measure(text, c), 8nat,
{
    lemma_advance_progress(text, c);
    if let Ok(c1) = eat(text, c, Tag::SEMI) {
        if statement_reaches(text, c1, t) {
            lemma_statement_passes_on(text, c1, t, e);
        } else if let Ok((next, c2)) = statement(text, c1) {
            lemma_more_statements_pass_on(text, c2, t, e, acc.push(next));
        }
    }
}

/// An assignment that fails makes the block fail that the parse reached it
/// from, with the same error.
pub proof fn lemma_block_passes_on(text: Seq<char>, c: Cursor, t: Cursor, e: ErrorView)
    requires
        block_reaches(text, c, t),
        assignment_statement(text, t) == Err::<(AstView, Cursor), ErrorView>(e),
    ensures
        block(text, c) == Err::<(AstView, Cursor), ErrorView>(e),
    decreases measure(text, c), 9nat,
{
    if declarations_reach(text, c, t) {
        lemma_declarations_pass_on(text, c, t, e);
    } else if let Ok((decls, c1)) = declarations(text, c) {
        lemma_compound_passes_on(text, c1, t, e);
    }
}

/// An assignment that fails makes the declarations fail that the parse
/// reached it from, with the same error.
pub proof fn lemma_declarations_pass_on(text: Seq<char>, c: Cursor, t: Cursor, e: ErrorView)
    requires
        declarations_reach(text, c, t),
        assignment_statement(text, t) == Err::<(AstView, Cursor), ErrorView>(e),
    ensures
        declarations(text, c) == Err::<(Seq<AstView>, Cursor), ErrorView>(e),
    decreases measure(text, c), 8nat,
{
    if let Ok((vars, c1)) = var_part(text, c) {
        lemma_procedures_pass_on(text, c1, t, e, vars);
    }
}

/// An assignment that fails makes the procedure declarations fail that the
/// parse reached it from, with the same error.
pub proof fn lemma_procedures_pass_on(
    text: Seq<char>,
    c: Cursor,
    t: Cursor,
    e: ErrorView,
    acc: Seq<AstView>,
)
    requires
        procedures_reach(text, c, t),
        assignment_statement(text, t) == Err::<(AstView, Cursor), ErrorView>(e),
    ensures
        procedures(text, c, acc) == Err::<(Seq<AstView>, Cursor), ErrorView>(e),
    decreases measure(text, c), 7nat,
{
    if let Ok(((id, params), c1)) = procedure_head(text, c) {
        if block_reaches(text, c1, t) {
            lemma_block_passes_on(text, c1, t, e);
        } else if let Ok((body, c2)) = block(text, c1) {
            if let Ok(c3) = eat(text, c2, Tag::SEMI) {
                lemma_procedures_pass_on(
                    text,
                    c3,
                    t,
                    e,
                    acc.push(AstView::ProcedureDecl { id, params, block_node: Box::new(body) }),
                );
            }
        }
    }
}

/// Wherever in a program an assignment stands whose right-hand side is
/// missing, the parse of the whole text fails with the token that follows
/// `:=`: if what stands before the assignment is the beginning of a program,
/// so that the parse gets to the assignment, and the token after `:=` cannot
/// start an expression, the result is an unexpected token, and the error
/// carries that token with its own kind, line and column.
pub proof fn lemma_missing_right_hand_side_anywhere(text: Seq<char>, t: Cursor)
    requires
        parse_reaches(text, t),
        variable(text, t) is Ok,
        eat(text, variable(text, t)->Ok_0.1, Tag::ASSIGN) is Ok,
        !starts_expression(eat(text, variable(text, t)->Ok_0.1, Tag::ASSIGN)->Ok_0.token.kind),
    ensures
        parse_text(text) == Err::<AstView, ErrorView>(
            ErrorView::UNEXPECTED_TOKEN(
                eat(text, variable(text, t)->Ok_0.1, Tag::ASSIGN)->Ok_0.token,
            ),
        ),
{
    let after = eat(text, variable(text, t)->Ok_0.1, Tag::ASSIGN)->Ok_0;
    let e = ErrorView::UNEXPECTED_TOKEN(after.token);
    lemma_missing_right_hand_side(text, t);
    let c = advance(text, 0)->Ok_0;
    let c1 = eat(text, c, Tag::PROGRAM)->Ok_0;
    let c2 = variable(text, c1)->Ok_0.1;
    let c3 = eat(text, c2, Tag::SEMI)->Ok_0;
    lemma_block_passes_on(text, c3, t, e);
}

/// What follows the final `.` of a program is never passed over: if the
/// program is well formed and a token other than the end of the text follows
/// it, parsing fails as an unexpected token, and the error carries that
/// token.
pub proof fn lemma_trailing_token(text: Seq<char>)
    requires
        advance(text, 0) is Ok,
        program(text, advance(text, 0)->Ok_0) is Ok,
        !(program(text, advance(text, 0)->Ok_0)->Ok_0.1.token.kind is EOF),
    ensures
        parse_text(text) == Err::<AstView, ErrorView>(
            ErrorView::UNEXPECTED_TOKEN(program(text, advance(text, 0)->Ok_0)->Ok_0.1.token),
        ),
{
}

} // verus!
