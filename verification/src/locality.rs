//! What a parse reads: a text that agrees with another up to the end of a
//! program parses as the other does up to there.
use crate::ast::{AstView, ParamView};
use crate::errors::ErrorView;
use crate::grammar::{advance, assignment_statement, block, compound_statement, declarations, eat, expr, factor, formal_parameter_list, formal_parameters, id_list, lemma_block_progress, lemma_eat_progress, lemma_factor_progress, lemma_heads_progress, lemma_statement_progress, lemma_term_progress, lemma_typed_names_progress, measure, more_factors, more_statements, more_terms, parameter_groups, parse_text, procedure_head, procedure_parameters, procedures, program, statement, statement_list, term, type_spec, var_part, var_section, variable, variable_declaration, Cursor, Parsed};
use crate::lexer::{digits_end, is_alphanumeric, is_digit, is_letter, lemma_digits_end_bounds, lemma_scan_bounds, lemma_skip_bounds, lemma_word_end_bounds, newlines_before, scan, since_newline, skip, token_at, word_end};
use crate::token::{KindView, Tag, TokenView};
use vstd::prelude::*;

verus! {

/// Two texts agree on their first `q` characters.
pub open spec fn agree(a: Seq<char>, b: Seq<char>, q: int) -> bool {
    0 <= q <= a.len() && q <= b.len() && forall|i: int| 0 <= i < q ==> a[i] == b[i]
}

/// Skipping that stops before the end of what two texts agree on stops at
/// the same place in both.
pub proof fn lemma_skip_local(a: Seq<char>, b: Seq<char>, q: int, pos: int, in_comment: bool)
    requires
        agree(a, b, q),
        0 <= pos <= a.len(),
        skip(a, pos, in_comment) < q,
    ensures
        skip(b, pos, in_comment) == skip(a, pos, in_comment),
    decreases a.len() - pos,
{
    lemma_skip_bounds(a, pos, in_comment);
    assert(a[pos] == b[pos]);
    if in_comment {
        lemma_skip_local(a, b, q, pos + 1, a[pos] != '}');
    } else if a[pos] == '{' {
        lemma_skip_local(a, b, q, pos + 1, true);
    } else if crate::lexer::is_space(a[pos]) {
        lemma_skip_local(a, b, q, pos + 1, false);
    }
}

/// A word that ends before the end of what two texts agree on ends at the
/// same place in both.
pub proof fn lemma_word_local(a: Seq<char>, b: Seq<char>, q: int, pos: int)
    requires
        agree(a, b, q),
        0 <= pos <= a.len(),
        word_end(a, pos) < q,
    ensures
        word_end(b, pos) == word_end(a, pos),
    decreases a.len() - pos,
{
    lemma_word_end_bounds(a, pos);
    assert(a[pos] == b[pos]);
    if is_alphanumeric(a[pos]) {
        lemma_word_local(a, b, q, pos + 1);
    }
}

/// A run of digits that ends before the end of what two texts agree on ends
/// at the same place in both.
pub proof fn lemma_digits_local(a: Seq<char>, b: Seq<char>, q: int, pos: int)
    requires
        agree(a, b, q),
        0 <= pos <= a.len(),
        digits_end(a, pos) < q,
    ensures
        digits_end(b, pos) == digits_end(a, pos),
    decreases a.len() - pos,
{
    lemma_digits_end_bounds(a, pos);
    assert(a[pos] == b[pos]);
    if is_digit(a[pos]) {
        lemma_digits_local(a, b, q, pos + 1);
    }
}

/// Line and column of a place in what two texts agree on are the same in
/// both.
pub proof fn lemma_place_local(a: Seq<char>, b: Seq<char>, q: int, pos: int)
    requires
        agree(a, b, q),
        0 <= pos <= q,
    ensures
        newlines_before(b, pos) == newlines_before(a, pos),
        since_newline(b, pos) == since_newline(a, pos),
    decreases pos,
{
    if pos > 0 {
        assert(a[pos - 1] == b[pos - 1]);
        lemma_place_local(a, b, q, pos - 1);
    }
}

/// A token that ends before the end of what two texts agree on, or a `.`
/// that ends at it, is the same token in both.
pub proof fn lemma_scan_local(a: Seq<char>, b: Seq<char>, q: int, pos: int)
    requires
        agree(a, b, q),
        0 <= pos <= a.len(),
        scan(a, pos).result is Ok,
        scan(a, pos).end < q || (scan(a, pos).end <= q && scan(a, pos).result == Ok::<
            KindView,
            char,
        >(KindView::DOT)),
    ensures
        scan(b, pos) == scan(a, pos),
        token_at(b, scan(a, pos).result->Ok_0, scan(a, pos).start) == token_at(
            a,
            scan(a, pos).result->Ok_0,
            scan(a, pos).start,
        ),
{
    lemma_scan_bounds(a, pos);
    let start = skip(a, pos, false);
    assert(start < a.len());
    assert(start < q);
    lemma_skip_local(a, b, q, pos, false);
    lemma_place_local(a, b, q, start);
    assert(a[start] == b[start]);
    if is_letter(a[start]) {
        let end = word_end(a, start);
        lemma_word_local(a, b, q, start);
        assert(a.subrange(start, end) =~= b.subrange(start, end));
    } else if is_digit(a[start]) {
        let dot = digits_end(a, start);
        lemma_digits_end_bounds(a, start);
        if dot < a.len() {
            lemma_digits_end_bounds(a, dot + 1);
        }
        lemma_digits_local(a, b, q, start);
        assert(a[dot] == b[dot]);
        assert(a.subrange(start, dot) =~= b.subrange(start, dot));
        if a[dot] == '.' {
            let end = digits_end(a, dot + 1);
            lemma_digits_local(a, b, q, dot + 1);
            assert(a.subrange(dot + 1, end) =~= b.subrange(dot + 1, end));
        }
    } else if a[start] == ':' {
        assert(a[start + 1] == b[start + 1]);
    }
}

/// A parse that stands at `c` has not read past the end of what is agreed
/// on: it has stopped before it, or it looks at a `.` that ends there.
pub open spec fn inside(c: Cursor, q: int) -> bool {
    c.pos < q || (c.pos <= q && c.token.kind is DOT)
}

/// The position of a cursor lies in the text or at its end.
pub open spec fn in_range(text: Seq<char>, c: Cursor) -> bool {
    0 <= c.pos <= text.len()
}

/// The parse stands no further on at `c` than at `end`, and if it has read
/// as far, it stands at `end` itself, unless `end` is the end of the text.
pub open spec fn before(c: Cursor, end: Cursor) -> bool {
    c.pos <= end.pos && (c.pos == end.pos ==> c == end || end.token.kind is EOF)
}

/// What a step of the parse gives is the same in both texts as long as it
/// stays inside what they agree on.
pub open spec fn step_kept(
    a: Seq<char>,
    q: int,
    c: Cursor,
    in_first: Result<Cursor, ErrorView>,
    in_second: Result<Cursor, ErrorView>,
) -> bool {
    in_first matches Ok(end) ==> in_range(a, end) && before(c, end) && (inside(end, q)
        ==> in_second == in_first)
}

/// What a rule gives is the same in both texts as long as it stays inside
/// what they agree on.
pub open spec fn kept<T>(
    a: Seq<char>,
    q: int,
    c: Cursor,
    in_first: Parsed<T>,
    in_second: Parsed<T>,
) -> bool {
    in_first matches Ok((_, end)) ==> in_range(a, end) && before(c, end) && (inside(end, q)
        ==> in_second == in_first)
}

/// Reading the next token is kept.
pub proof fn lemma_advance_kept(a: Seq<char>, b: Seq<char>, q: int, c: Cursor)
    requires
        agree(a, b, q),
        in_range(a, c),
    ensures
        step_kept(a, q, c, advance(a, c.pos), advance(b, c.pos)),
{
    reveal(advance);
    lemma_scan_bounds(a, c.pos);
    if scan(a, c.pos).result is Ok {
        let end = advance(a, c.pos)->Ok_0;
        if inside(end, q) {
            lemma_scan_local(a, b, q, c.pos);
        }
    }
}

/// Eating a token is kept.
pub proof fn lemma_eat_kept(a: Seq<char>, b: Seq<char>, q: int, c: Cursor, tag: Tag)
    requires
        agree(a, b, q),
        in_range(a, c),
    ensures
        step_kept(a, q, c, eat(a, c, tag), eat(b, c, tag)),
{
    lemma_advance_kept(a, b, q, c);
}

/// `variable` and `type_spec` are kept.
pub proof fn lemma_names_kept(a: Seq<char>, b: Seq<char>, q: int, c: Cursor)
    requires
        agree(a, b, q),
        in_range(a, c),
    ensures
        kept(a, q, c, variable(a, c), variable(b, c)),
        kept(a, q, c, type_spec(a, c), type_spec(b, c)),
{
    lemma_eat_kept(a, b, q, c, Tag::ID);
    lemma_eat_kept(a, b, q, c, Tag::TYPE);
}

/// A list of identifiers is kept.
pub proof fn lemma_id_list_kept(
    a: Seq<char>,
    b: Seq<char>,
    q: int,
    c: Cursor,
    acc: Seq<TokenView>,
)
    requires
        agree(a, b, q),
        in_range(a, c),
    ensures
        kept(a, q, c, id_list(a, c, acc), id_list(b, c, acc)),
    decreases measure(a, c),
{
    lemma_eat_kept(a, b, q, c, Tag::ID);
    lemma_eat_progress(a, c, Tag::ID);
    if let Ok(c1) = eat(a, c, Tag::ID) {
        if c1.token.kind is COMMA {
            lemma_eat_kept(a, b, q, c1, Tag::COMMA);
            lemma_eat_progress(a, c1, Tag::COMMA);
            if let Ok(c2) = eat(a, c1, Tag::COMMA) {
                lemma_id_list_kept(a, b, q, c2, acc.push(c.token));
            }
        }
    }
}

/// A declaration of variables and a group of parameters are kept.
pub proof fn lemma_typed_names_kept(a: Seq<char>, b: Seq<char>, q: int, c: Cursor)
    requires
        agree(a, b, q),
        in_range(a, c),
    ensures
        kept(a, q, c, variable_declaration(a, c), variable_declaration(b, c)),
        kept(a, q, c, formal_parameters(a, c), formal_parameters(b, c)),
{
    lemma_id_list_kept(a, b, q, c, Seq::empty());
    if let Ok((ids, c1)) = id_list(a, c, Seq::empty()) {
        lemma_eat_kept(a, b, q, c1, Tag::COLON);
        if let Ok(c2) = eat(a, c1, Tag::COLON) {
            lemma_names_kept(a, b, q, c2);
        }
    }
}

/// The groups of a parameter list are kept.
pub proof fn lemma_parameter_groups_kept(
    a: Seq<char>,
    b: Seq<char>,
    q: int,
    c: Cursor,
    acc: Seq<ParamView>,
)
    requires
        agree(a, b, q),
        in_range(a, c),
    ensures
        kept(a, q, c, parameter_groups(a, c, acc), parameter_groups(b, c, acc)),
    decreases measure(a, c),
{
    lemma_typed_names_kept(a, b, q, c);
    lemma_typed_names_progress(a, c);
    lemma_typed_names_progress(b, c);
    if let Ok((group, c1)) = formal_parameters(a, c) {
        if c1.token.kind is SEMI {
            lemma_eat_kept(a, b, q, c1, Tag::SEMI);
            lemma_eat_progress(a, c1, Tag::SEMI);
            lemma_eat_progress(b, c1, Tag::SEMI);
            if let Ok(c2) = eat(a, c1, Tag::SEMI) {
                lemma_parameter_groups_kept(a, b, q, c2, acc + group);
            }
        }
    }
}

/// The declarations of a `VAR` section are kept.
pub proof fn lemma_var_section_kept(
    a: Seq<char>,
    b: Seq<char>,
    q: int,
    c: Cursor,
    acc: Seq<AstView>,
)
    requires
        agree(a, b, q),
        in_range(a, c),
    ensures
        kept(a, q, c, var_section(a, c, acc), var_section(b, c, acc)),
    decreases measure(a, c),
{
    lemma_typed_names_kept(a, b, q, c);
    lemma_typed_names_progress(a, c);
    lemma_typed_names_progress(b, c);
    if let Ok((decls, c1)) = variable_declaration(a, c) {
        lemma_eat_kept(a, b, q, c1, Tag::SEMI);
        lemma_eat_progress(a, c1, Tag::SEMI);
        lemma_eat_progress(b, c1, Tag::SEMI);
        if let Ok(c2) = eat(a, c1, Tag::SEMI) {
            if c2.token.kind is ID {
                lemma_var_section_kept(a, b, q, c2, acc + decls);
            }
        }
    }
}

/// The optional parts of the declarations are kept.
pub proof fn lemma_optional_parts_kept(a: Seq<char>, b: Seq<char>, q: int, c: Cursor)
    requires
        agree(a, b, q),
        in_range(a, c),
    ensures
        kept(a, q, c, formal_parameter_list(a, c), formal_parameter_list(b, c)),
        kept(a, q, c, var_part(a, c), var_part(b, c)),
        kept(a, q, c, procedure_parameters(a, c), procedure_parameters(b, c)),
{
    lemma_parameter_groups_kept(a, b, q, c, Seq::empty());
    lemma_eat_kept(a, b, q, c, Tag::VAR);
    if let Ok(c1) = eat(a, c, Tag::VAR) {
        lemma_var_section_kept(a, b, q, c1, Seq::empty());
    }
    lemma_eat_kept(a, b, q, c, Tag::LPAREN);
    if let Ok(c1) = eat(a, c, Tag::LPAREN) {
        lemma_parameter_groups_kept(a, b, q, c1, Seq::empty());
        if let Ok((params, c2)) = formal_parameter_list(a, c1) {
            lemma_eat_kept(a, b, q, c2, Tag::RPAREN);
        }
    }
}

/// The head of a procedure is kept.
pub proof fn lemma_procedure_head_kept(a: Seq<char>, b: Seq<char>, q: int, c: Cursor)
    requires
        agree(a, b, q),
        in_range(a, c),
    ensures
        kept(a, q, c, procedure_head(a, c), procedure_head(b, c)),
{
    lemma_eat_kept(a, b, q, c, Tag::PROCEDURE);
    if let Ok(c1) = eat(a, c, Tag::PROCEDURE) {
        lemma_eat_kept(a, b, q, c1, Tag::ID);
        if let Ok(c2) = eat(a, c1, Tag::ID) {
            lemma_optional_parts_kept(a, b, q, c2);
            if let Ok((params, c3)) = procedure_parameters(a, c2) {
                lemma_eat_kept(a, b, q, c3, Tag::SEMI);
            }
        }
    }
}

/// An expression is kept.
pub proof fn lemma_expr_kept(a: Seq<char>, b: Seq<char>, q: int, c: Cursor)
    requires
        agree(a, b, q),
        in_range(a, c),
    ensures
        kept(a, q, c, expr(a, c), expr(b, c)),
    decreases measure(a, c), 5nat,
{
    lemma_term_kept(a, b, q, c);
    lemma_term_progress(a, c);
    lemma_term_progress(b, c);
    if let Ok((left, c1)) = term(a, c) {
        lemma_more_terms_kept(a, b, q, c1, left);
    }
}

/// Further terms are kept.
pub proof fn lemma_more_terms_kept(a: Seq<char>, b: Seq<char>, q: int, c: Cursor, left: AstView)
    requires
        agree(a, b, q),
        in_range(a, c),
    ensures
        kept(a, q, c, more_terms(a, c, left), more_terms(b, c, left)),
    decreases measure(a, c), 4nat,
{
    if c.token.kind is PLUS || c.token.kind is MINUS {
        lemma_advance_kept(a, b, q, c);
        crate::grammar::lemma_advance_progress(a, c);
        if let Ok(c1) = advance(a, c.pos) {
            lemma_term_kept(a, b, q, c1);
            lemma_term_progress(a, c1);
            lemma_term_progress(b, c1);
            if let Ok((right, c2)) = term(a, c1) {
                lemma_more_terms_kept(
                    a,
                    b,
                    q,
                    c2,
                    AstView::BinOp {
                        left: Box::new(left),
                        right: Box::new(right),
                        op: c.token.kind,
                    },
                );
            }
        }
    }
}

/// A term is kept.
pub proof fn lemma_term_kept(a: Seq<char>, b: Seq<char>, q: int, c: Cursor)
    requires
        agree(a, b, q),
        in_range(a, c),
    ensures
        kept(a, q, c, term(a, c), term(b, c)),
    decreases measure(a, c), 3nat,
{
    lemma_factor_kept(a, b, q, c);
    lemma_factor_progress(a, c);
    lemma_factor_progress(b, c);
    if let Ok((left, c1)) = factor(a, c) {
        lemma_more_factors_kept(a, b, q, c1, left);
    }
}

/// Further factors are kept.
pub proof fn lemma_more_factors_kept(
    a: Seq<char>,
    b: Seq<char>,
    q: int,
    c: Cursor,
    left: AstView,
)
    requires
        agree(a, b, q),
        in_range(a, c),
    ensures
        kept(a, q, c, more_factors(a, c, left), more_factors(b, c, left)),
    decreases measure(a, c), 2nat,
{
    if c.token.kind is MUL || c.token.kind is INTEGER_DIV || c.token.kind is FLOAT_DIV {
        lemma_advance_kept(a, b, q, c);
        crate::grammar::lemma_advance_progress(a, c);
        if let Ok(c1) = advance(a, c.pos) {
            lemma_factor_kept(a, b, q, c1);
            lemma_factor_progress(a, c1);
            lemma_factor_progress(b, c1);
            if let Ok((right, c2)) = factor(a, c1) {
                lemma_more_factors_kept(
                    a,
                    b,
                    q,
                    c2,
                    AstView::BinOp {
                        left: Box::new(left),
                        right: Box::new(right),
                        op: c.token.kind,
                    },
                );
            }
        }
    }
}

/// A factor is kept.
pub proof fn lemma_factor_kept(a: Seq<char>, b: Seq<char>, q: int, c: Cursor)
    requires
        agree(a, b, q),
        in_range(a, c),
    ensures
        kept(a, q, c, factor(a, c), factor(b, c)),
    decreases measure(a, c), 1nat,
{
    if crate::grammar::starts_expression(c.token.kind) {
        lemma_advance_kept(a, b, q, c);
        lemma_eat_kept(a, b, q, c, Tag::ID);
        crate::grammar::lemma_advance_progress(a, c);
        if let Ok(c1) = advance(a, c.pos) {
            if c.token.kind is PLUS || c.token.kind is MINUS {
                lemma_factor_kept(a, b, q, c1);
            }
            if c.token.kind is LPAREN {
                lemma_expr_kept(a, b, q, c1);
                if let Ok((inner, c2)) = expr(a, c1) {
                    lemma_eat_kept(a, b, q, c2, Tag::RPAREN);
                }
            }
        }
    }
}

/// An assignment is kept.
pub proof fn lemma_assignment_kept(a: Seq<char>, b: Seq<char>, q: int, c: Cursor)
    requires
        agree(a, b, q),
        in_range(a, c),
    ensures
        kept(a, q, c, assignment_statement(a, c), assignment_statement(b, c)),
{
    lemma_names_kept(a, b, q, c);
    if let Ok((left, c1)) = variable(a, c) {
        lemma_eat_kept(a, b, q, c1, Tag::ASSIGN);
        if let Ok(c2) = eat(a, c1, Tag::ASSIGN) {
            lemma_expr_kept(a, b, q, c2);
        }
    }
}

/// A statement is kept.
pub proof fn lemma_statement_kept(a: Seq<char>, b: Seq<char>, q: int, c: Cursor)
    requires
        agree(a, b, q),
        in_range(a, c),
    ensures
        kept(a, q, c, statement(a, c), statement(b, c)),
    decreases measure(a, c), 7nat,
{
    if c.token.kind is BEGIN {
        lemma_compound_statement_kept(a, b, q, c);
    } else if c.token.kind is ID {
        lemma_assignment_kept(a, b, q, c);
    }
}

/// A compound statement is kept.
pub proof fn lemma_compound_statement_kept(a: Seq<char>, b: Seq<char>, q: int, c: Cursor)
    requires
        agree(a, b, q),
        in_range(a, c),
    ensures
        kept(a, q, c, compound_statement(a, c), compound_statement(b, c)),
    decreases measure(a, c), 6nat,
{
    lemma_eat_kept(a, b, q, c, Tag::BEGIN);
    lemma_eat_progress(a, c, Tag::BEGIN);
    if let Ok(c1) = eat(a, c, Tag::BEGIN) {
        lemma_statement_list_kept(a, b, q, c1);
        if let Ok((children, c2)) = statement_list(a, c1) {
            lemma_eat_kept(a, b, q, c2, Tag::END);
        }
    }
}

/// A list of statements is kept.
pub proof fn lemma_statement_list_kept(a: Seq<char>, b: Seq<char>, q: int, c: Cursor)
    requires
        agree(a, b, q),
        in_range(a, c),
    ensures
        kept(a, q, c, statement_list(a, c), statement_list(b, c)),
    decreases measure(a, c), 8nat,
{
    lemma_statement_kept(a, b, q, c);
    lemma_statement_progress(a, c);
    lemma_statement_progress(b, c);
    if let Ok((first, c1)) = statement(a, c) {
        lemma_more_statements_kept(a, b, q, c1, seq![first]);
    }
}

/// Further statements are kept.
pub proof fn lemma_more_statements_kept(
    a: Seq<char>,
    b: Seq<char>,
    q: int,
    c: Cursor,
    acc: Seq<AstView>,
)
    requires
        agree(a, b, q),
        in_range(a, c),
    ensures
        kept(a, q, c, more_statements(a, c, acc), more_statements(b, c, acc)),
    decreases measure(a, c), 7nat,
{
    if c.token.kind is SEMI {
        lemma_eat_kept(a, b, q, c, Tag::SEMI);
        lemma_eat_progress(a, c, Tag::SEMI);
        if let Ok(c1) = eat(a, c, Tag::SEMI) {
            lemma_statement_kept(a, b, q, c1);
            lemma_statement_progress(a, c1);
            lemma_statement_progress(b, c1);
            if let Ok((next, c2)) = statement(a, c1) {
                lemma_more_statements_kept(a, b, q, c2, acc.push(next));
            }
        }
    }
}

/// A block is kept.
pub proof fn lemma_block_kept(a: Seq<char>, b: Seq<char>, q: int, c: Cursor)
    requires
        agree(a, b, q),
        in_range(a, c),
    ensures
        kept(a, q, c, block(a, c), block(b, c)),
    decreases measure(a, c), 9nat,
{
    lemma_declarations_kept(a, b, q, c);
    if let Ok((decls, c1)) = declarations(a, c) {
        lemma_compound_statement_kept(a, b, q, c1);
    }
}

/// Declarations are kept.
pub proof fn lemma_declarations_kept(a: Seq<char>, b: Seq<char>, q: int, c: Cursor)
    requires
        agree(a, b, q),
        in_range(a, c),
    ensures
        kept(a, q, c, declarations(a, c), declarations(b, c)),
    decreases measure(a, c), 8nat,
{
    lemma_optional_parts_kept(a, b, q, c);
    lemma_heads_progress(a, c);
    lemma_heads_progress(b, c);
    if let Ok((vars, c1)) = var_part(a, c) {
        lemma_procedures_kept(a, b, q, c1, vars);
    }
}

/// Procedure declarations are kept.
pub proof fn lemma_procedures_kept(
    a: Seq<char>,
    b: Seq<char>,
    q: int,
    c: Cursor,
    acc: Seq<AstView>,
)
    requires
        agree(a, b, q),
        in_range(a, c),
    ensures
        kept(a, q, c, procedures(a, c, acc), procedures(b, c, acc)),
    decreases measure(a, c), 7nat,
{
    if c.token.kind is PROCEDURE {
        lemma_procedure_head_kept(a, b, q, c);
        lemma_heads_progress(a, c);
        lemma_heads_progress(b, c);
        if let Ok(((id, params), c1)) = procedure_head(a, c) {
            lemma_block_kept(a, b, q, c1);
            lemma_block_progress(a, c1);
            lemma_block_progress(b, c1);
            if let Ok((body, c2)) = block(a, c1) {
                lemma_eat_kept(a, b, q, c2, Tag::SEMI);
                lemma_eat_progress(a, c2, Tag::SEMI);
                lemma_eat_progress(b, c2, Tag::SEMI);
                if let Ok(c3) = eat(a, c2, Tag::SEMI) {
                    lemma_procedures_kept(
                        a,
                        b,
                        q,
                        c3,
                        acc.push(
                            AstView::ProcedureDecl { id, params, block_node: Box::new(body) },
                        ),
                    );
                }
            }
        }
    }
}

/// Where the parse of a text that holds a program stands when it looks at
/// the program's final `.`.
pub open spec fn at_final_dot(text: Seq<char>) -> Cursor {
    let c = advance(text, 0)->Ok_0;
    let c1 = eat(text, c, Tag::PROGRAM)->Ok_0;
    let c2 = variable(text, c1)->Ok_0.1;
    let c3 = eat(text, c2, Tag::SEMI)->Ok_0;
    block(text, c3)->Ok_0.1
}

/// What stands after the final `.` of a program changes nothing of the parse
/// before it, and is never passed over. If a text parses, every text that
/// agrees with it up to the end of the program's final `.` parses to the
/// same tree if nothing but white space and comments follows the `.`; if a
/// token follows, the parse fails as an unexpected token, and the error
/// carries that token; and if a character follows that the lexer refuses,
/// that is the error.
pub proof fn lemma_text_after_program(a: Seq<char>, b: Seq<char>)
    requires
        parse_text(a) is Ok,
        agree(a, b, at_final_dot(a).pos),
    ensures
        parse_text(b) == match advance(b, at_final_dot(a).pos) {
            Ok(next) => if next.token.kind is EOF {
                parse_text(a)
            } else {
                Err(ErrorView::UNEXPECTED_TOKEN(next.token))
            },
            Err(e) => Err(e),
        },
{
    let q = at_final_dot(a).pos;
    let origin = Cursor { token: at_final_dot(a).token, pos: 0 };
    lemma_advance_kept(a, b, q, origin);
    let c = advance(a, 0)->Ok_0;
    lemma_eat_kept(a, b, q, c, Tag::PROGRAM);
    let c1 = eat(a, c, Tag::PROGRAM)->Ok_0;
    lemma_names_kept(a, b, q, c1);
    let c2 = variable(a, c1)->Ok_0.1;
    lemma_eat_kept(a, b, q, c2, Tag::SEMI);
    let c3 = eat(a, c2, Tag::SEMI)->Ok_0;
    lemma_block_kept(a, b, q, c3);
    let c4 = block(a, c3)->Ok_0.1;
    assert(eat(a, c4, Tag::DOT) is Ok);
    assert(c4.token.kind is DOT);
    assert(inside(c4, q));
    assert(inside(c3, q));
    assert(inside(c2, q));
    assert(inside(c1, q));
    assert(inside(c, q));
}

/// The same of a text with more text after it: if `first` parses, then
/// `first + rest` parses to the same tree, or fails with the first token of
/// `rest` that follows the program's final `.`.
pub proof fn lemma_text_appended(first: Seq<char>, rest: Seq<char>)
    requires
        parse_text(first) is Ok,
    ensures
        parse_text(first + rest) == match advance(first + rest, at_final_dot(first).pos) {
            Ok(next) => if next.token.kind is EOF {
                parse_text(first)
            } else {
                Err(ErrorView::UNEXPECTED_TOKEN(next.token))
            },
            Err(e) => Err(e),
        },
{
    let a = first;
    let origin = Cursor { token: at_final_dot(a).token, pos: 0 };
    lemma_advance_kept(a, a, 0, origin);
    let c = advance(a, 0)->Ok_0;
    lemma_eat_kept(a, a, 0, c, Tag::PROGRAM);
    let c1 = eat(a, c, Tag::PROGRAM)->Ok_0;
    lemma_names_kept(a, a, 0, c1);
    let c2 = variable(a, c1)->Ok_0.1;
    lemma_eat_kept(a, a, 0, c2, Tag::SEMI);
    let c3 = eat(a, c2, Tag::SEMI)->Ok_0;
    lemma_block_kept(a, a, 0, c3);
    assert(in_range(a, at_final_dot(a)));
    lemma_text_after_program(first, first + rest);
}

} // verus!
