//! The recursive-descent parser, which builds the tree that the grammar gives.
use crate::ast::{asts_view, params_view, AstView, Param, ParamView, AST};
use crate::errors::{Error, ErrorView};
use crate::grammar::{
    advance, assignment_statement, block, compound_statement, declarations, eat, expr, factor,
    formal_parameter_list, formal_parameters, id_list, id_name, lemma_advance_progress, measure,
    more_factors, more_statements, more_terms, no_earlier, parameter_groups, params_of,
    parse_text, procedure_head, procedures, program, statement,
    statement_list, term, type_spec, var_decls, var_part, var_section, variable,
    variable_declaration, Cursor,
};
use crate::interpreter::{evaluable, evaluable_all, yields};
use crate::lexer::{lemma_literals_fit_on, lemma_scan_bounds, literals_fit, Lexer};
use crate::semantic::{scope_depth, scope_depth_all};
use crate::token::{Kind, Tag, Token, TokenView};
use crate::var_type::VarType;
use vstd::prelude::*;

verus! {

/// A node that can stand as an operand: the interpreter can walk it, it
/// hands back a value, and it opens no scope.
pub open spec fn operand(node: AstView) -> bool {
    evaluable(node) && yields(node) && scope_depth(node) == 0
}

/// Nodes that the interpreter can walk and that go at most `depth` scopes
/// deep.
pub open spec fn bounded(nodes: Seq<AstView>, depth: nat) -> bool {
    forall|i: int|
        0 <= i < nodes.len() ==> evaluable(#[trigger] nodes[i]) && scope_depth(nodes[i]) <= depth
}

/// What holds of each node of a list holds of the list.
pub proof fn lemma_bounded(nodes: Seq<AstView>, depth: nat, i: int)
    requires
        bounded(nodes, depth),
        0 <= i,
    ensures
        evaluable_all(nodes, i),
        scope_depth_all(nodes, i) <= depth,
    decreases nodes.len() - i,
{
    if i < nodes.len() {
        lemma_bounded(nodes, depth, i + 1);
    }
}

/// The models of a list of tokens.
pub open spec fn tokens_view(tokens: Seq<Token>) -> Seq<TokenView> {
    Seq::new(tokens.len(), |i: int| tokens[i]@)
}

/// The mathematical model of a [`Parser`]: the text and where the parse
/// stands in it.
pub struct ParserView {
    pub text: Seq<char>,
    pub cursor: Cursor,
}

/// The recursive-descent parser: it pulls tokens from the lexer one at a
/// time and builds the tree of a program.
#[derive(Debug)]
pub struct Parser {
    lexer: Lexer,
    current_token: Token,
}

impl View for Parser {
    type V = ParserView;

    closed spec fn view(&self) -> ParserView {
        ParserView {
            text: self.lexer@.text,
            cursor: Cursor { token: self.current_token@, pos: self.lexer@.pos },
        }
    }
}

/// The name that an identifier token carries.
fn name_of(token: &Token) -> (r: String)
    ensures
        r@ == id_name(token@),
{
    match &token.kind {
        Kind::ID(name) => name.clone(),
        _ => String::new(),
    }
}

impl Parser {
    /// The parser's invariant: that of its lexer.
    pub closed spec fn wf(&self) -> bool {
        self.lexer.wf()
    }

    /// The parser can go on: its invariant holds, and every numeric literal
    /// that the lexer has yet to read has a value.
    pub closed spec fn ready(&self) -> bool {
        self.lexer.wf() && literals_fit(self.lexer@.text, self.lexer@.pos)
    }

    /// A parser on `lexer`, looking at the lexer's next token.
    pub fn new(lexer: Lexer) -> (r: Result<Parser, Error>)
        requires
            lexer.wf(),
            literals_fit(lexer@.text, lexer@.pos),
        ensures
            match advance(lexer@.text, lexer@.pos) {
                Ok(c) => r is Ok && r->Ok_0.ready() && r->Ok_0@ == (ParserView {
                    text: lexer@.text,
                    cursor: c,
                }),
                Err(e) => r is Err && r->Err_0@ == e,
            },
    {
        reveal(advance);
        let mut lexer = lexer;
        proof {
            lexer.lemma_position();
            lemma_literals_fit_on(lexer@.text, lexer@.pos);
        }
        match lexer.next_token() {
            Ok(token) => Ok(Parser { lexer, current_token: token }),
            Err(e) => Err(e),
        }
    }

    /// Moves on to the next token.
    fn step(&mut self) -> (r: Result<(), Error>)
        requires
            old(self).ready(),
        ensures
            final(self).wf(),
            r is Ok ==> final(self).ready(),
            final(self)@.text == old(self)@.text,
            match advance(old(self)@.text, old(self)@.cursor.pos) {
                Ok(c) => r is Ok && final(self)@.cursor == c,
                Err(e) => r is Err && r->Err_0@ == e,
            },
            r is Ok && !(old(self)@.cursor.token.kind is EOF) ==> measure(
                final(self)@.text,
                final(self)@.cursor,
            ) < measure(old(self)@.text, old(self)@.cursor),
    {
        reveal(advance);
        proof {
            if !(self@.cursor.token.kind is EOF) {
                lemma_advance_progress(self@.text, self@.cursor);
            }
            self.lexer.lemma_position();
            lemma_literals_fit_on(self.lexer@.text, self.lexer@.pos);
        }
        match self.lexer.next_token() {
            Ok(token) => {
                self.current_token = token;
                Ok(())
            },
            Err(e) => Err(e),
        }
    }

    /// Expects a token of kind `tag` and moves on to the next token.
    fn eat(&mut self, tag: Tag) -> (r: Result<(), Error>)
        requires
            old(self).ready(),
        ensures
            final(self).wf(),
            r is Ok ==> final(self).ready(),
            final(self)@.text == old(self)@.text,
            match eat(old(self)@.text, old(self)@.cursor, tag) {
                Ok(c) => r is Ok && final(self)@.cursor == c,
                Err(e) => r is Err && r->Err_0@ == e,
            },
            r is Ok && tag != Tag::EOF ==> measure(final(self)@.text, final(self)@.cursor)
                < measure(old(self)@.text, old(self)@.cursor),
            old(self)@.cursor.token.kind.tag() != tag ==> final(self)@ == old(self)@,
    {
        if self.current_token.kind.tag() == tag {
            self.step()
        } else {
            Err(Error::UNEXPECTED_TOKEN(self.current_token.clone()))
        }
    }

    /// `variable := ID`
    fn variable(&mut self) -> (r: Result<AST, Error>)
        requires
            old(self).ready(),
        ensures
            final(self).wf(),
            r is Ok ==> final(self).ready(),
            final(self)@.text == old(self)@.text,
            match variable(old(self)@.text, old(self)@.cursor) {
                Ok((node, c)) => r is Ok && r->Ok_0@ == node && final(self)@.cursor == c,
                Err(e) => r is Err && r->Err_0@ == e,
            },
            r is Ok ==> operand(r->Ok_0@) && measure(final(self)@.text, final(self)@.cursor)
                < measure(old(self)@.text, old(self)@.cursor),
    {
        let token = self.current_token.clone();
        let id = name_of(&token);
        match self.eat(Tag::ID) {
            Ok(()) => Ok(AST::Var { id, token }),
            Err(e) => Err(e),
        }
    }

    /// `type_spec := INTEGER | REAL`
    fn type_spec(&mut self) -> (r: Result<VarType, Error>)
        requires
            old(self).ready(),
        ensures
            final(self).wf(),
            r is Ok ==> final(self).ready(),
            final(self)@.text == old(self)@.text,
            match type_spec(old(self)@.text, old(self)@.cursor) {
                Ok((t, c)) => r is Ok && r->Ok_0 == t && final(self)@.cursor == c,
                Err(e) => r is Err && r->Err_0@ == e,
            },
            r is Ok ==> no_earlier(old(self)@.text, old(self)@.cursor, final(self)@.cursor),
    {
        let var_type = match &self.current_token.kind {
            Kind::TYPE(t) => *t,
            _ => VarType::INTEGER,
        };
        match self.eat(Tag::TYPE) {
            Ok(()) => Ok(var_type),
            Err(e) => Err(e),
        }
    }

    /// `ID (COMMA ID)*`: the identifier tokens.
    fn id_list(&mut self) -> (r: Result<Vec<Token>, Error>)
        requires
            old(self).ready(),
        ensures
            final(self).wf(),
            r is Ok ==> final(self).ready(),
            final(self)@.text == old(self)@.text,
            match id_list(old(self)@.text, old(self)@.cursor, Seq::empty()) {
                Ok((ids, c)) => r is Ok && tokens_view(r->Ok_0@) == ids && final(self)@.cursor
                    == c,
                Err(e) => r is Err && r->Err_0@ == e,
            },
            r is Ok ==> no_earlier(old(self)@.text, old(self)@.cursor, final(self)@.cursor),
    {
        let mut ids: Vec<Token> = Vec::new();
        let ghost text = self@.text;
        let ghost start = self@.cursor;
        proof {
            assert(tokens_view(ids@) =~= Seq::empty());
        }
        loop
            invariant
                self.ready(),
                self@.text == text,
                text == old(self)@.text,
                start == old(self)@.cursor,
                no_earlier(text, start, self@.cursor),
                id_list(text, self@.cursor, tokens_view(ids@)) == id_list(
                    text,
                    start,
                    Seq::empty(),
                ),
            decreases measure(text, self@.cursor),
        {
            let token = self.current_token.clone();
            let ghost before = tokens_view(ids@);
            match self.eat(Tag::ID) {
                Ok(()) => {},
                Err(e) => {
                    return Err(e);
                },
            }
            ids.push(token);
            proof {
                assert(tokens_view(ids@) =~= before.push(token@));
            }
            if self.current_token.kind.tag() != Tag::COMMA {
                return Ok(ids);
            }
            match self.eat(Tag::COMMA) {
                Ok(()) => {},
                Err(e) => {
                    return Err(e);
                },
            }
        }
    }

    /// `var_decl := ID (COMMA ID)* COLON type_spec`
    fn variable_declaration(&mut self) -> (r: Result<Vec<AST>, Error>)
        requires
            old(self).ready(),
        ensures
            final(self).wf(),
            r is Ok ==> final(self).ready(),
            final(self)@.text == old(self)@.text,
            match variable_declaration(old(self)@.text, old(self)@.cursor) {
                Ok((nodes, c)) => r is Ok && asts_view(r->Ok_0@) == nodes && final(self)@.cursor
                    == c,
                Err(e) => r is Err && r->Err_0@ == e,
            },
            r is Ok ==> no_earlier(old(self)@.text, old(self)@.cursor, final(self)@.cursor)
                && bounded(asts_view(r->Ok_0@), 0),
    {
        let ids = match self.id_list() {
            Ok(ids) => ids,
            Err(e) => {
                return Err(e);
            },
        };
        match self.eat(Tag::COLON) {
            Ok(()) => {},
            Err(e) => {
                return Err(e);
            },
        }
        let var_type = match self.type_spec() {
            Ok(t) => t,
            Err(e) => {
                return Err(e);
            },
        };
        let mut nodes: Vec<AST> = Vec::new();
        let mut i: usize = 0;
        while i < ids.len()
            invariant
                i <= ids.len(),
                nodes@.len() == i,
                forall|j: int|
                    0 <= j < i ==> (#[trigger] nodes@[j])@ == (AstView::VarDecl {
                        id: id_name(ids@[j]@),
                        var_type,
                        token: ids@[j]@,
                    }),
            decreases ids.len() - i,
        {
            nodes.push(
                AST::VarDecl { id: name_of(&ids[i]), var_type, token: ids[i].clone() },
            );
            i += 1;
        }
        proof {
            assert(asts_view(nodes@) =~= var_decls(tokens_view(ids@), var_type));
        }
        Ok(nodes)
    }

    /// `formal_parameters := ID (COMMA ID)* COLON type_spec`
    fn formal_parameters(&mut self) -> (r: Result<Vec<Param>, Error>)
        requires
            old(self).ready(),
        ensures
            final(self).wf(),
            r is Ok ==> final(self).ready(),
            final(self)@.text == old(self)@.text,
            match formal_parameters(old(self)@.text, old(self)@.cursor) {
                Ok((params, c)) => r is Ok && params_view(r->Ok_0@) == params && final(self)@.cursor == c,
                Err(e) => r is Err && r->Err_0@ == e,
            },
            r is Ok ==> no_earlier(old(self)@.text, old(self)@.cursor, final(self)@.cursor),
    {
        let ids = match self.id_list() {
            Ok(ids) => ids,
            Err(e) => {
                return Err(e);
            },
        };
        match self.eat(Tag::COLON) {
            Ok(()) => {},
            Err(e) => {
                return Err(e);
            },
        }
        let ttype = match self.type_spec() {
            Ok(t) => t,
            Err(e) => {
                return Err(e);
            },
        };
        let mut params: Vec<Param> = Vec::new();
        let mut i: usize = 0;
        while i < ids.len()
            invariant
                i <= ids.len(),
                params@.len() == i,
                forall|j: int|
                    0 <= j < i ==> (#[trigger] params@[j])@ == (ParamView {
                        id: id_name(ids@[j]@),
                        ttype,
                    }),
            decreases ids.len() - i,
        {
            params.push(Param { id: name_of(&ids[i]), ttype });
            i += 1;
        }
        proof {
            assert(params_view(params@) =~= params_of(tokens_view(ids@), ttype));
        }
        Ok(params)
    }

    /// `formal_parameter_list := (formal_parameters (SEMI formal_parameters)*)?`
    fn formal_parameter_list(&mut self) -> (r: Result<Vec<Param>, Error>)
        requires
            old(self).ready(),
        ensures
            final(self).wf(),
            r is Ok ==> final(self).ready(),
            final(self)@.text == old(self)@.text,
            match formal_parameter_list(old(self)@.text, old(self)@.cursor) {
                Ok((params, c)) => r is Ok && params_view(r->Ok_0@) == params && final(self)@.cursor == c,
                Err(e) => r is Err && r->Err_0@ == e,
            },
            r is Ok ==> no_earlier(old(self)@.text, old(self)@.cursor, final(self)@.cursor),
    {
        let mut params: Vec<Param> = Vec::new();
        proof {
            assert(params_view(params@) =~= Seq::empty());
        }
        if self.current_token.kind.tag() != Tag::ID {
            return Ok(params);
        }
        let ghost text = self@.text;
        let ghost start = self@.cursor;
        loop
            invariant
                self.ready(),
                self@.text == text,
                text == old(self)@.text,
                start == old(self)@.cursor,
                no_earlier(text, start, self@.cursor),
                formal_parameter_list(text, start) == parameter_groups(text, start, Seq::empty()),
                parameter_groups(text, self@.cursor, params_view(params@)) == parameter_groups(
                    text,
                    start,
                    Seq::empty(),
                ),
            decreases measure(text, self@.cursor),
        {
            let ghost before = params_view(params@);
            let mut group = match self.formal_parameters() {
                Ok(group) => group,
                Err(e) => {
                    return Err(e);
                },
            };
            let ghost added = params_view(group@);
            params.append(&mut group);
            proof {
                assert(params_view(params@) =~= before + added);
            }
            if self.current_token.kind.tag() != Tag::SEMI {
                return Ok(params);
            }
            match self.eat(Tag::SEMI) {
                Ok(()) => {},
                Err(e) => {
                    return Err(e);
                },
            }
        }
    }

    /// `(VAR (var_decl SEMI)+)?`
    fn var_part(&mut self) -> (r: Result<Vec<AST>, Error>)
        requires
            old(self).ready(),
        ensures
            final(self).wf(),
            r is Ok ==> final(self).ready(),
            final(self)@.text == old(self)@.text,
            match var_part(old(self)@.text, old(self)@.cursor) {
                Ok((nodes, c)) => r is Ok && asts_view(r->Ok_0@) == nodes && final(self)@.cursor
                    == c,
                Err(e) => r is Err && r->Err_0@ == e,
            },
            r is Ok ==> no_earlier(old(self)@.text, old(self)@.cursor, final(self)@.cursor)
                && bounded(asts_view(r->Ok_0@), 0),
    {
        let mut nodes: Vec<AST> = Vec::new();
        proof {
            assert(asts_view(nodes@) =~= Seq::empty());
        }
        if self.current_token.kind.tag() != Tag::VAR {
            return Ok(nodes);
        }
        match self.eat(Tag::VAR) {
            Ok(()) => {},
            Err(e) => {
                return Err(e);
            },
        }
        let ghost text = self@.text;
        let ghost start = self@.cursor;
        loop
            invariant
                self.ready(),
                self@.text == text,
                text == old(self)@.text,
                no_earlier(text, old(self)@.cursor, start),
                no_earlier(text, start, self@.cursor),
                bounded(asts_view(nodes@), 0),
                var_part(text, old(self)@.cursor) == var_section(text, start, Seq::empty()),
                var_section(text, self@.cursor, asts_view(nodes@)) == var_section(
                    text,
                    start,
                    Seq::empty(),
                ),
            decreases measure(text, self@.cursor),
        {
            let ghost before = asts_view(nodes@);
            let mut decls = match self.variable_declaration() {
                Ok(decls) => decls,
                Err(e) => {
                    return Err(e);
                },
            };
            let ghost added = asts_view(decls@);
            nodes.append(&mut decls);
            proof {
                assert(asts_view(nodes@) =~= before + added);
            }
            match self.eat(Tag::SEMI) {
                Ok(()) => {},
                Err(e) => {
                    return Err(e);
                },
            }
            if self.current_token.kind.tag() != Tag::ID {
                return Ok(nodes);
            }
        }
    }

    /// `PROCEDURE ID (LPAREN formal_parameter_list RPAREN)? SEMI`
    fn procedure_head(&mut self) -> (r: Result<(String, Vec<Param>), Error>)
        requires
            old(self).ready(),
        ensures
            final(self).wf(),
            r is Ok ==> final(self).ready(),
            final(self)@.text == old(self)@.text,
            match procedure_head(old(self)@.text, old(self)@.cursor) {
                Ok(((id, params), c)) => r is Ok && r->Ok_0.0@ == id && params_view(r->Ok_0.1@)
                    == params && final(self)@.cursor == c,
                Err(e) => r is Err && r->Err_0@ == e,
            },
            r is Ok ==> measure(final(self)@.text, final(self)@.cursor) < measure(
                old(self)@.text,
                old(self)@.cursor,
            ),
    {
        match self.eat(Tag::PROCEDURE) {
            Ok(()) => {},
            Err(e) => {
                return Err(e);
            },
        }
        let id = name_of(&self.current_token);
        match self.eat(Tag::ID) {
            Ok(()) => {},
            Err(e) => {
                return Err(e);
            },
        }
        let mut params: Vec<Param> = Vec::new();
        proof {
            assert(params_view(params@) =~= Seq::empty());
        }
        if self.current_token.kind.tag() == Tag::LPAREN {
            match self.eat(Tag::LPAREN) {
                Ok(()) => {},
                Err(e) => {
                    return Err(e);
                },
            }
            params = match self.formal_parameter_list() {
                Ok(params) => params,
                Err(e) => {
                    return Err(e);
                },
            };
            match self.eat(Tag::RPAREN) {
                Ok(()) => {},
                Err(e) => {
                    return Err(e);
                },
            }
        }
        match self.eat(Tag::SEMI) {
            Ok(()) => {},
            Err(e) => {
                return Err(e);
            },
        }
        Ok((id, params))
    }

    /// `block := declarations compound_statement`
    fn block(&mut self) -> (r: Result<AST, Error>)
        requires
            old(self).ready(),
        ensures
            final(self).wf(),
            r is Ok ==> final(self).ready(),
            final(self)@.text == old(self)@.text,
            match block(old(self)@.text, old(self)@.cursor) {
                Ok((node, c)) => r is Ok && r->Ok_0@ == node && final(self)@.cursor == c,
                Err(e) => r is Err && r->Err_0@ == e,
            },
            r is Ok ==> evaluable(r->Ok_0@) && scope_depth(r->Ok_0@) + measure(
                final(self)@.text,
                final(self)@.cursor,
            ) <= measure(old(self)@.text, old(self)@.cursor),
        decreases measure(old(self)@.text, old(self)@.cursor), 9nat,
    {
        let ghost text = self@.text;
        let ghost start = self@.cursor;
        let declaration_nodes = match self.declarations() {
            Ok(nodes) => nodes,
            Err(e) => {
                return Err(e);
            },
        };
        let ghost middle = self@.cursor;
        let compound = match self.compound_statement() {
            Ok(node) => node,
            Err(e) => {
                return Err(e);
            },
        };
        let ghost decls = asts_view(declaration_nodes@);
        let node = AST::Block { declaration_nodes, compound_nodes: Box::new(compound) };
        proof {
            crate::ast::lemma_children_view(node);
            lemma_bounded(decls, (measure(text, start) - measure(text, middle)) as nat, 0);
        }
        Ok(node)
    }

    /// `declarations := (VAR (var_decl SEMI)+)? (PROCEDURE ... SEMI block SEMI)*`
    fn declarations(&mut self) -> (r: Result<Vec<AST>, Error>)
        requires
            old(self).ready(),
        ensures
            final(self).wf(),
            r is Ok ==> final(self).ready(),
            final(self)@.text == old(self)@.text,
            match declarations(old(self)@.text, old(self)@.cursor) {
                Ok((nodes, c)) => r is Ok && asts_view(r->Ok_0@) == nodes && final(self)@.cursor
                    == c,
                Err(e) => r is Err && r->Err_0@ == e,
            },
            r is Ok ==> no_earlier(old(self)@.text, old(self)@.cursor, final(self)@.cursor)
                && bounded(
                asts_view(r->Ok_0@),
                (measure(old(self)@.text, old(self)@.cursor) - measure(
                    final(self)@.text,
                    final(self)@.cursor,
                )) as nat,
            ),
        decreases measure(old(self)@.text, old(self)@.cursor), 8nat,
    {
        let ghost text = self@.text;
        let ghost start = self@.cursor;
        let mut nodes = match self.var_part() {
            Ok(nodes) => nodes,
            Err(e) => {
                return Err(e);
            },
        };
        let ghost entry = self@.cursor;
        let ghost vars = asts_view(nodes@);
        while self.current_token.kind.tag() == Tag::PROCEDURE
            invariant
                self.ready(),
                self@.text == text,
                text == old(self)@.text,
                start == old(self)@.cursor,
                no_earlier(text, start, entry),
                no_earlier(text, entry, self@.cursor),
                bounded(
                    asts_view(nodes@),
                    (measure(text, start) - measure(text, self@.cursor)) as nat,
                ),
                declarations(text, start) == procedures(text, entry, vars),
                procedures(text, self@.cursor, asts_view(nodes@)) == procedures(text, entry, vars),
            decreases measure(text, self@.cursor),
        {
            let ghost here = self@.cursor;
            let ghost before = asts_view(nodes@);
            let (id, params) = match self.procedure_head() {
                Ok(head) => head,
                Err(e) => {
                    return Err(e);
                },
            };
            let ghost inside = self@.cursor;
            let body = match self.block() {
                Ok(body) => body,
                Err(e) => {
                    return Err(e);
                },
            };
            match self.eat(Tag::SEMI) {
                Ok(()) => {},
                Err(e) => {
                    return Err(e);
                },
            }
            let node = AST::ProcedureDecl { id, params, block_node: Box::new(body) };
            nodes.push(node);
            proof {
                assert(asts_view(nodes@) =~= before.push(node@));
                let depth = (measure(text, start) - measure(text, self@.cursor)) as nat;
                assert forall|i: int| 0 <= i < asts_view(nodes@).len() implies evaluable(
                    #[trigger] asts_view(nodes@)[i],
                ) && scope_depth(asts_view(nodes@)[i]) <= depth by {
                    if i < before.len() {
                        assert(asts_view(nodes@)[i] == before[i]);
                    }
                }
            }
        }
        Ok(nodes)
    }

    /// `compound_statement := BEGIN statement_list END`
    fn compound_statement(&mut self) -> (r: Result<AST, Error>)
        requires
            old(self).ready(),
        ensures
            final(self).wf(),
            r is Ok ==> final(self).ready(),
            final(self)@.text == old(self)@.text,
            match compound_statement(old(self)@.text, old(self)@.cursor) {
                Ok((node, c)) => r is Ok && r->Ok_0@ == node && final(self)@.cursor == c,
                Err(e) => r is Err && r->Err_0@ == e,
            },
            r is Ok ==> evaluable(r->Ok_0@) && scope_depth(r->Ok_0@) == 0 && no_earlier(
                old(self)@.text,
                old(self)@.cursor,
                final(self)@.cursor,
            ),
        decreases measure(old(self)@.text, old(self)@.cursor), 6nat,
    {
        match self.eat(Tag::BEGIN) {
            Ok(()) => {},
            Err(e) => {
                return Err(e);
            },
        }
        let children = match self.statement_list() {
            Ok(children) => children,
            Err(e) => {
                return Err(e);
            },
        };
        match self.eat(Tag::END) {
            Ok(()) => {},
            Err(e) => {
                return Err(e);
            },
        }
        let ghost views = asts_view(children@);
        let node = AST::Compound { children };
        proof {
            crate::ast::lemma_children_view(node);
            lemma_bounded(views, 0, 0);
        }
        Ok(node)
    }

    /// `statement_list := statement (SEMI statement)*`
    fn statement_list(&mut self) -> (r: Result<Vec<AST>, Error>)
        requires
            old(self).ready(),
        ensures
            final(self).wf(),
            r is Ok ==> final(self).ready(),
            final(self)@.text == old(self)@.text,
            match statement_list(old(self)@.text, old(self)@.cursor) {
                Ok((nodes, c)) => r is Ok && asts_view(r->Ok_0@) == nodes && final(self)@.cursor
                    == c,
                Err(e) => r is Err && r->Err_0@ == e,
            },
            r is Ok ==> bounded(asts_view(r->Ok_0@), 0) && no_earlier(
                old(self)@.text,
                old(self)@.cursor,
                final(self)@.cursor,
            ),
        decreases measure(old(self)@.text, old(self)@.cursor), 8nat,
    {
        let ghost text = self@.text;
        let ghost start = self@.cursor;
        let first = match self.statement() {
            Ok(node) => node,
            Err(e) => {
                return Err(e);
            },
        };
        let ghost entry = self@.cursor;
        let ghost initial = seq![first@];
        let mut results: Vec<AST> = Vec::new();
        results.push(first);
        proof {
            assert(asts_view(results@) =~= initial);
        }
        while self.current_token.kind.tag() == Tag::SEMI
            invariant
                self.ready(),
                self@.text == text,
                text == old(self)@.text,
                start == old(self)@.cursor,
                no_earlier(text, start, entry),
                no_earlier(text, entry, self@.cursor),
                bounded(asts_view(results@), 0),
                statement_list(text, start) == more_statements(text, entry, initial),
                more_statements(text, self@.cursor, asts_view(results@)) == more_statements(
                    text,
                    entry,
                    initial,
                ),
            decreases measure(text, self@.cursor),
        {
            let ghost before = asts_view(results@);
            match self.eat(Tag::SEMI) {
                Ok(()) => {},
                Err(e) => {
                    return Err(e);
                },
            }
            let next = match self.statement() {
                Ok(node) => node,
                Err(e) => {
                    return Err(e);
                },
            };
            let ghost added = next@;
            results.push(next);
            proof {
                assert(asts_view(results@) =~= before.push(added));
                assert forall|i: int| 0 <= i < asts_view(results@).len() implies evaluable(
                    #[trigger] asts_view(results@)[i],
                ) && scope_depth(asts_view(results@)[i]) <= 0 by {
                    if i < before.len() {
                        assert(asts_view(results@)[i] == before[i]);
                    }
                }
            }
        }
        Ok(results)
    }

    /// `statement := compound_statement | assignment_statement | empty`
    fn statement(&mut self) -> (r: Result<AST, Error>)
        requires
            old(self).ready(),
        ensures
            final(self).wf(),
            r is Ok ==> final(self).ready(),
            final(self)@.text == old(self)@.text,
            match statement(old(self)@.text, old(self)@.cursor) {
                Ok((node, c)) => r is Ok && r->Ok_0@ == node && final(self)@.cursor == c,
                Err(e) => r is Err && r->Err_0@ == e,
            },
            r is Ok ==> evaluable(r->Ok_0@) && scope_depth(r->Ok_0@) == 0 && no_earlier(
                old(self)@.text,
                old(self)@.cursor,
                final(self)@.cursor,
            ),
        decreases measure(old(self)@.text, old(self)@.cursor), 7nat,
    {
        match self.current_token.kind.tag() {
            Tag::BEGIN => self.compound_statement(),
            Tag::ID => self.assignment_statement(),
            _ => Ok(AST::NoOp),
        }
    }

    /// `assignment_statement := variable ASSIGN expr`
    fn assignment_statement(&mut self) -> (r: Result<AST, Error>)
        requires
            old(self).ready(),
        ensures
            final(self).wf(),
            r is Ok ==> final(self).ready(),
            final(self)@.text == old(self)@.text,
            match assignment_statement(old(self)@.text, old(self)@.cursor) {
                Ok((node, c)) => r is Ok && r->Ok_0@ == node && final(self)@.cursor == c,
                Err(e) => r is Err && r->Err_0@ == e,
            },
            r is Ok ==> evaluable(r->Ok_0@) && scope_depth(r->Ok_0@) == 0 && no_earlier(
                old(self)@.text,
                old(self)@.cursor,
                final(self)@.cursor,
            ),
    {
        let left_id = name_of(&self.current_token);
        let left = match self.variable() {
            Ok(node) => node,
            Err(e) => {
                return Err(e);
            },
        };
        match self.eat(Tag::ASSIGN) {
            Ok(()) => {},
            Err(e) => {
                return Err(e);
            },
        }
        let right = match self.expr() {
            Ok(node) => node,
            Err(e) => {
                return Err(e);
            },
        };
        Ok(AST::Assign { left_id, left: Box::new(left), right: Box::new(right) })
    }

    /// `expr := term ((PLUS | MINUS) term)*`
    fn expr(&mut self) -> (r: Result<AST, Error>)
        requires
            old(self).ready(),
        ensures
            final(self).wf(),
            r is Ok ==> final(self).ready(),
            final(self)@.text == old(self)@.text,
            match expr(old(self)@.text, old(self)@.cursor) {
                Ok((node, c)) => r is Ok && r->Ok_0@ == node && final(self)@.cursor == c,
                Err(e) => r is Err && r->Err_0@ == e,
            },
            r is Ok ==> operand(r->Ok_0@) && no_earlier(
                old(self)@.text,
                old(self)@.cursor,
                final(self)@.cursor,
            ),
        decreases measure(old(self)@.text, old(self)@.cursor), 5nat,
    {
        let ghost text = self@.text;
        let ghost start = self@.cursor;
        let mut left = match self.term() {
            Ok(node) => node,
            Err(e) => {
                return Err(e);
            },
        };
        let ghost entry = self@.cursor;
        let ghost initial = left@;
        while self.current_token.kind.tag() == Tag::PLUS || self.current_token.kind.tag()
            == Tag::MINUS
            invariant
                self.ready(),
                self@.text == text,
                text == old(self)@.text,
                start == old(self)@.cursor,
                no_earlier(text, start, entry),
                no_earlier(text, entry, self@.cursor),
                operand(left@),
                expr(text, start) == more_terms(text, entry, initial),
                more_terms(text, self@.cursor, left@) == more_terms(text, entry, initial),
            decreases measure(text, self@.cursor),
        {
            let op = self.current_token.kind.clone();
            match self.step() {
                Ok(()) => {},
                Err(e) => {
                    return Err(e);
                },
            }
            let right = match self.term() {
                Ok(node) => node,
                Err(e) => {
                    return Err(e);
                },
            };
            left = AST::BinOp { left: Box::new(left), right: Box::new(right), op };
        }
        Ok(left)
    }

    /// `term := factor ((MUL | INTEGER_DIV | REAL_DIV) factor)*`
    fn term(&mut self) -> (r: Result<AST, Error>)
        requires
            old(self).ready(),
        ensures
            final(self).wf(),
            r is Ok ==> final(self).ready(),
            final(self)@.text == old(self)@.text,
            match term(old(self)@.text, old(self)@.cursor) {
                Ok((node, c)) => r is Ok && r->Ok_0@ == node && final(self)@.cursor == c,
                Err(e) => r is Err && r->Err_0@ == e,
            },
            r is Ok ==> operand(r->Ok_0@) && no_earlier(
                old(self)@.text,
                old(self)@.cursor,
                final(self)@.cursor,
            ),
        decreases measure(old(self)@.text, old(self)@.cursor), 3nat,
    {
        let ghost text = self@.text;
        let ghost start = self@.cursor;
        let mut left = match self.factor() {
            Ok(node) => node,
            Err(e) => {
                return Err(e);
            },
        };
        let ghost entry = self@.cursor;
        let ghost initial = left@;
        while self.current_token.kind.tag() == Tag::MUL || self.current_token.kind.tag()
            == Tag::INTEGER_DIV || self.current_token.kind.tag() == Tag::FLOAT_DIV
            invariant
                self.ready(),
                self@.text == text,
                text == old(self)@.text,
                start == old(self)@.cursor,
                no_earlier(text, start, entry),
                no_earlier(text, entry, self@.cursor),
                operand(left@),
                term(text, start) == more_factors(text, entry, initial),
                more_factors(text, self@.cursor, left@) == more_factors(text, entry, initial),
            decreases measure(text, self@.cursor),
        {
            let op = self.current_token.kind.clone();
            match self.step() {
                Ok(()) => {},
                Err(e) => {
                    return Err(e);
                },
            }
            let right = match self.factor() {
                Ok(node) => node,
                Err(e) => {
                    return Err(e);
                },
            };
            left = AST::BinOp { left: Box::new(left), right: Box::new(right), op };
        }
        Ok(left)
    }

    /// `factor := (PLUS | MINUS) factor | INTEGER_CONST | REAL_CONST
    ///          | LPAREN expr RPAREN | variable`
    fn factor(&mut self) -> (r: Result<AST, Error>)
        requires
            old(self).ready(),
        ensures
            final(self).wf(),
            r is Ok ==> final(self).ready(),
            final(self)@.text == old(self)@.text,
            match factor(old(self)@.text, old(self)@.cursor) {
                Ok((node, c)) => r is Ok && r->Ok_0@ == node && final(self)@.cursor == c,
                Err(e) => r is Err && r->Err_0@ == e,
            },
            r is Ok ==> operand(r->Ok_0@) && no_earlier(
                old(self)@.text,
                old(self)@.cursor,
                final(self)@.cursor,
            ),
        decreases measure(old(self)@.text, old(self)@.cursor), 1nat,
    {
        let kind = self.current_token.kind.clone();
        match kind {
            Kind::PLUS | Kind::MINUS => {
                match self.step() {
                    Ok(()) => {},
                    Err(e) => {
                        return Err(e);
                    },
                }
                let operand = match self.factor() {
                    Ok(node) => node,
                    Err(e) => {
                        return Err(e);
                    },
                };
                Ok(AST::UnaryOp { op: kind, expr: Box::new(operand) })
            },
            Kind::INTEGER_CONST(value) => {
                match self.step() {
                    Ok(()) => Ok(AST::NumInteger { value }),
                    Err(e) => Err(e),
                }
            },
            Kind::REAL_CONST(value) => {
                match self.step() {
                    Ok(()) => Ok(AST::NumReal { value }),
                    Err(e) => Err(e),
                }
            },
            Kind::LPAREN => {
                match self.step() {
                    Ok(()) => {},
                    Err(e) => {
                        return Err(e);
                    },
                }
                let inner = match self.expr() {
                    Ok(node) => node,
                    Err(e) => {
                        return Err(e);
                    },
                };
                match self.eat(Tag::RPAREN) {
                    Ok(()) => Ok(inner),
                    Err(e) => Err(e),
                }
            },
            Kind::ID(_) => self.variable(),
            _ => Err(Error::UNEXPECTED_TOKEN(self.current_token.clone())),
        }
    }

    /// `program := PROGRAM variable SEMI block DOT`
    fn program(&mut self) -> (r: Result<AST, Error>)
        requires
            old(self).ready(),
        ensures
            final(self).wf(),
            r is Ok ==> final(self).ready(),
            final(self)@.text == old(self)@.text,
            match program(old(self)@.text, old(self)@.cursor) {
                Ok((node, c)) => r is Ok && r->Ok_0@ == node && final(self)@.cursor == c,
                Err(e) => r is Err && r->Err_0@ == e,
            },
            r is Ok ==> evaluable(r->Ok_0@) && scope_depth(r->Ok_0@) < measure(
                old(self)@.text,
                old(self)@.cursor,
            ),
    {
        match self.eat(Tag::PROGRAM) {
            Ok(()) => {},
            Err(e) => {
                return Err(e);
            },
        }
        let name = name_of(&self.current_token);
        match self.variable() {
            Ok(_) => {},
            Err(e) => {
                return Err(e);
            },
        }
        match self.eat(Tag::SEMI) {
            Ok(()) => {},
            Err(e) => {
                return Err(e);
            },
        }
        let body = match self.block() {
            Ok(node) => node,
            Err(e) => {
                return Err(e);
            },
        };
        match self.eat(Tag::DOT) {
            Ok(()) => {},
            Err(e) => {
                return Err(e);
            },
        }
        Ok(AST::Program { name, block: Box::new(body) })
    }

    /// Parses a whole program, after which the text must end.
    pub fn parse(self) -> (r: Result<AST, Error>)
        requires
            self.ready(),
        ensures
            match program(self@.text, self@.cursor) {
                Ok((tree, end)) => if end.token.kind is EOF {
                    r is Ok && r->Ok_0@ == tree
                } else {
                    r is Err && r->Err_0@ == ErrorView::UNEXPECTED_TOKEN(end.token)
                },
                Err(e) => r is Err && r->Err_0@ == e,
            },
            r is Ok ==> evaluable(r->Ok_0@) && scope_depth(r->Ok_0@) < measure(
                self@.text,
                self@.cursor,
            ),
    {
        let mut this = self;
        let tree = match this.program() {
            Ok(tree) => tree,
            Err(e) => {
                return Err(e);
            },
        };
        if this.current_token.kind.tag() != Tag::EOF {
            Err(Error::UNEXPECTED_TOKEN(this.current_token.clone()))
        } else {
            Ok(tree)
        }
    }
}

/// Parses a source text: the tree of the program it holds, or the first
/// lexical or syntactic error.
pub fn parse_source(source: &str) -> (r: Result<AST, Error>)
    requires
        literals_fit(source@, 0),
    ensures
        match parse_text(source@) {
            Ok(tree) => r is Ok && r->Ok_0@ == tree,
            Err(e) => r is Err && r->Err_0@ == e,
        },
        r is Ok ==> evaluable(r->Ok_0@) && scope_depth(r->Ok_0@) <= usize::MAX,
{
    let lexer = match Lexer::new(source) {
        Ok(lexer) => lexer,
        Err(e) => {
            return Err(e);
        },
    };
    proof {
        reveal(advance);
        lexer.lemma_position();
        lemma_scan_bounds(source@, 0);
    }
    let parser = match Parser::new(lexer) {
        Ok(parser) => parser,
        Err(e) => {
            return Err(e);
        },
    };
    parser.parse()
}

} // verus!
