//! Builds the statement tree from tokens, by recursive descent.

use vstd::prelude::*;
use vstd::string::*;
use crate::ast::{
    BinaryOp, Expr, ExprModel, LogicalOp, Stmt, StmtModel, UnaryOp, expr_views,
    lemma_array_model, lemma_block_models, lemma_call_model, lemma_dict_model, name_views,
    pair_views, stmt_views,
};
use crate::error::{ErrorKind, ErrorModel, Span, WhispemError, WhispemResult};
use crate::grammar;
use crate::grammar::{Parsed, Tokens};
use crate::lexer::{ends_with_eof, token_views};
use crate::token::{Spanned, Token, lemma_text_of_model};

verus! {

pub struct Parser {
    tokens: Vec<Spanned>,
    position: usize,
}

/// Whether a result and the position reached are what the grammar gives.
pub open spec fn parsed_expr(r: WhispemResult<Expr>, model: Parsed<ExprModel>, pos: int) -> bool {
    match r {
        Ok(e) => model == Ok::<(ExprModel, int), ErrorModel>((e@, pos)),
        Err(err) => model == Err::<(ExprModel, int), ErrorModel>(err@),
    }
}

pub open spec fn parsed_exprs(
    r: WhispemResult<Vec<Expr>>,
    model: Parsed<Seq<ExprModel>>,
    pos: int,
) -> bool {
    match r {
        Ok(v) => model == Ok::<(Seq<ExprModel>, int), ErrorModel>((expr_views(v@), pos)),
        Err(err) => model == Err::<(Seq<ExprModel>, int), ErrorModel>(err@),
    }
}

pub open spec fn parsed_stmt(r: WhispemResult<Stmt>, model: Parsed<StmtModel>, pos: int) -> bool {
    match r {
        Ok(s) => model == Ok::<(StmtModel, int), ErrorModel>((s@, pos)),
        Err(err) => model == Err::<(StmtModel, int), ErrorModel>(err@),
    }
}

pub open spec fn parsed_stmts(
    r: WhispemResult<Vec<Stmt>>,
    model: Parsed<Seq<StmtModel>>,
    pos: int,
) -> bool {
    match r {
        Ok(v) => model == Ok::<(Seq<StmtModel>, int), ErrorModel>((stmt_views(v@), pos)),
        Err(err) => model == Err::<(Seq<StmtModel>, int), ErrorModel>(err@),
    }
}

impl Parser {
    /// The tokens that are parsed.
    pub closed spec fn tokens(&self) -> Seq<Spanned> {
        self.tokens@
    }

    /// The models of the tokens that are parsed.
    pub open spec fn stream(&self) -> Tokens {
        token_views(self.tokens())
    }

    /// How many tokens have been read.
    pub closed spec fn offset(&self) -> int {
        self.position as int
    }

    /// The tokens end with the one end token, and the parser stands on one
    /// of them.
    pub open spec fn wf(&self) -> bool {
        ends_with_eof(self.tokens()) && 0 <= self.offset() < self.tokens().len()
    }

    /// Whether `next` stands on the same tokens as `self`, no further back.
    pub open spec fn follows(&self, next: &Parser) -> bool {
        next.wf() && next.tokens() == self.tokens() && next.offset() >= self.offset()
    }

    /// Whether `next` stands on the same tokens as `self`, further on.
    pub open spec fn before(&self, next: &Parser) -> bool {
        self.follows(next) && next.offset() > self.offset()
    }

    pub fn new(tokens: Vec<Spanned>) -> (p: Parser)
        requires
            ends_with_eof(tokens@),
        ensures
            p.wf(),
            p.tokens() == tokens@,
            p.offset() == 0,
    {
        Parser { tokens, position: 0 }
    }

    fn current(&self) -> (t: &Spanned)
        requires
            self.wf(),
        ensures
            *t == self.tokens()[self.offset()],
            t@ == self.stream()[self.offset()],
    {
        &self.tokens[self.position]
    }

    fn line(&self) -> (n: usize)
        requires
            self.wf(),
        ensures
            n == self.stream()[self.offset()].line,
    {
        self.current().line
    }

    fn at(&self, kind: &Token) -> (b: bool)
        requires
            self.wf(),
        ensures
            b == grammar::is_at(self.stream(), self.offset(), *kind),
            b && !(kind is Eof) ==> self.offset() + 1 < self.tokens().len(),
    {
        let b = self.current().token.kind_code() == kind.kind_code();
        proof {
            let n = self.tokens().len() as int;
            if b && !(kind is Eof) && self.offset() == n - 1 {
                assert(self.tokens().last().token is Eof);
            }
        }
        b
    }

    fn advance(&mut self)
        requires
            old(self).wf(),
        ensures
            old(self).follows(final(self)),
            final(self).offset() == grammar::next(old(self).stream(), old(self).offset()),
            !(old(self).tokens()[old(self).offset()].token is Eof) ==> final(self).offset()
                == old(self).offset() + 1,
    {
        let n: usize = self.tokens.len();
        if self.position < n - 1 {
            self.position += 1;
        }
    }

    fn skip_newlines(&mut self)
        requires
            old(self).wf(),
        ensures
            old(self).follows(final(self)),
            final(self).offset() == grammar::skip_newlines(old(self).stream(), old(self).offset()),
    {
        while self.at(&Token::Newline)
            invariant
                old(self).follows(self),
                grammar::skip_newlines(old(self).stream(), old(self).offset())
                    == grammar::skip_newlines(self.stream(), self.offset()),
            decreases self.tokens().len() - self.offset(),
        {
            self.advance();
        }
    }

    /// The error for a token that does not fit.
    fn unexpected(&self, expected: &str) -> (e: WhispemError)
        requires
            self.wf(),
        ensures
            e@ == grammar::unexpected(self.stream(), self.offset(), expected@),
    {
        proof {
            lemma_text_of_model(self.tokens()[self.offset()].token);
        }
        WhispemError::new(
            ErrorKind::UnexpectedToken {
                expected: String::from_str(expected),
                found: self.current().token.to_string(),
            },
            Span::new(self.current().line, self.current().column),
        )
    }

    fn consume(&mut self, expected: Token) -> (r: WhispemResult<()>)
        requires
            old(self).wf(),
            !(expected is Eof),
        ensures
            old(self).follows(final(self)),
            match r {
                Ok(_) => grammar::consume(old(self).stream(), old(self).offset(), expected)
                    == Ok::<int, ErrorModel>(final(self).offset()) && old(self).before(
                    final(self),
                ),
                Err(e) => grammar::consume(old(self).stream(), old(self).offset(), expected)
                    == Err::<int, ErrorModel>(e@),
            },
    {
        if self.at(&expected) {
            self.advance();
            Ok(())
        } else {
            let text = expected.to_string();
            Err(self.unexpected(text.as_str()))
        }
    }

    fn consume_identifier(&mut self) -> (r: WhispemResult<String>)
        requires
            old(self).wf(),
        ensures
            old(self).follows(final(self)),
            match r {
                Ok(name) => grammar::consume_identifier(old(self).stream(), old(self).offset())
                    == Ok::<(Seq<char>, int), ErrorModel>((name@, final(self).offset()))
                    && old(self).before(final(self)),
                Err(e) => grammar::consume_identifier(old(self).stream(), old(self).offset())
                    == Err::<(Seq<char>, int), ErrorModel>(e@),
            },
    {
        let name = match &self.current().token {
            Token::Identifier(name) => Some(name.clone()),
            _ => None,
        };
        match name {
            Some(name) => {
                self.advance();
                Ok(name)
            },
            None => Err(self.unexpected("identifier")),
        }
    }

    /// Parses a whole program: statements up to the end token.
    #[verifier::rlimit(100)]
    #[verifier::spinoff_prover]
    pub fn parse_program(&mut self) -> (r: WhispemResult<Vec<Stmt>>)
        requires
            old(self).wf(),
        ensures
            old(self).follows(final(self)),
            parsed_stmts(
                r,
                grammar::program_rest(old(self).stream(), old(self).offset(), Seq::empty()),
                final(self).offset(),
            ),
    {
        let mut statements: Vec<Stmt> = Vec::new();
        let ghost t = self.stream();
        let ghost start = self.offset();
        proof {
            assert(stmt_views(statements@) =~= Seq::<StmtModel>::empty());
        }
        loop
            invariant
                old(self).follows(self),
                t == old(self).stream(),
                start == old(self).offset(),
                grammar::program_rest(t, start, Seq::empty()) == grammar::program_rest(
                    t,
                    self.offset(),
                    stmt_views(statements@),
                ),
            decreases self.tokens().len() - self.offset(),
        {
            proof {
                grammar::lemma_skip_newlines(t, self.offset());
            }
            self.skip_newlines();
            if self.at(&Token::Eof) {
                return Ok(statements);
            }
            let ghost before = stmt_views(statements@);
            let s = self.parse_statement()?;
            proof {
                assert(stmt_views(statements@.push(s)) =~= before.push(s@));
            }
            statements.push(s);
        }
    }

    #[verifier::rlimit(100)]
    #[verifier::spinoff_prover]
    fn parse_statement(&mut self) -> (r: WhispemResult<Stmt>)
        requires
            old(self).wf(),
        ensures
            old(self).follows(final(self)),
            r is Ok ==> old(self).before(final(self)),
            parsed_stmt(
                r,
                grammar::parse_statement(old(self).stream(), old(self).offset()),
                final(self).offset(),
            ),
        decreases old(self).tokens().len() - old(self).offset(), 60nat,
    {
        let ghost t = self.stream();
        let ghost pos = self.offset();
        if self.at(&Token::Let) {
            self.parse_let()
        } else if self.at(&Token::Print) {
            self.parse_print()
        } else if self.at(&Token::If) {
            self.parse_if()
        } else if self.at(&Token::While) {
            self.parse_while()
        } else if self.at(&Token::For) {
            self.parse_for()
        } else if self.at(&Token::Fn) {
            self.parse_function()
        } else if self.at(&Token::Return) {
            self.parse_return()
        } else if self.at(&Token::Break) {
            let line = self.line();
            self.advance();
            Ok(Stmt::Break { line })
        } else if self.at(&Token::Continue) {
            let line = self.line();
            self.advance();
            Ok(Stmt::Continue { line })
        } else if self.at(&Token::WriteFile) || self.at(&Token::ReadFile) {
            let line = self.line();
            let name = if self.at(&Token::WriteFile) {
                String::from_str("write_file")
            } else {
                String::from_str("read_file")
            };
            self.advance();
            let arguments = self.parse_call_args()?;
            proof {
                lemma_call_model(name, arguments, line);
            }
            Ok(Stmt::Expression { expr: Expr::Call { name, arguments, line }, line })
        } else if self.at(&Token::Identifier(String::new())) {
            self.parse_identifier_stmt()
        } else {
            Err(self.unexpected("statement"))
        }
    }

    #[verifier::rlimit(100)]
    #[verifier::spinoff_prover]
    fn parse_let(&mut self) -> (r: WhispemResult<Stmt>)
        requires
            old(self).wf(),
            !(old(self).tokens()[old(self).offset()].token is Eof),
        ensures
            old(self).follows(final(self)),
            r is Ok ==> old(self).before(final(self)),
            parsed_stmt(
                r,
                grammar::parse_let(old(self).stream(), old(self).offset()),
                final(self).offset(),
            ),
        decreases old(self).tokens().len() - old(self).offset(), 50nat,
    {
        let line = self.line();
        self.advance();
        let name = self.consume_identifier()?;
        self.consume(Token::Equals)?;
        let value = self.parse_expression()?;
        Ok(Stmt::Let { name, value, line })
    }

    #[verifier::rlimit(100)]
    #[verifier::spinoff_prover]
    fn parse_print(&mut self) -> (r: WhispemResult<Stmt>)
        requires
            old(self).wf(),
            !(old(self).tokens()[old(self).offset()].token is Eof),
        ensures
            old(self).follows(final(self)),
            r is Ok ==> old(self).before(final(self)),
            parsed_stmt(
                r,
                grammar::parse_print(old(self).stream(), old(self).offset()),
                final(self).offset(),
            ),
        decreases old(self).tokens().len() - old(self).offset(), 50nat,
    {
        let line = self.line();
        self.advance();
        let value = self.parse_expression()?;
        Ok(Stmt::Print { value, line })
    }

    #[verifier::rlimit(100)]
    #[verifier::spinoff_prover]
    fn parse_if(&mut self) -> (r: WhispemResult<Stmt>)
        requires
            old(self).wf(),
            !(old(self).tokens()[old(self).offset()].token is Eof),
        ensures
            old(self).follows(final(self)),
            r is Ok ==> old(self).before(final(self)),
            parsed_stmt(
                r,
                grammar::parse_if(old(self).stream(), old(self).offset()),
                final(self).offset(),
            ),
        decreases old(self).tokens().len() - old(self).offset(), 50nat,
    {
        let line = self.line();
        self.advance();
        let condition = self.parse_expression()?;
        let then_branch = self.parse_block()?;
        let else_branch = if self.at(&Token::Else) {
            self.advance();
            Some(self.parse_block()?)
        } else {
            None
        };
        let s = Stmt::If { condition, then_branch, else_branch, line };
        proof {
            lemma_block_models(s);
        }
        Ok(s)
    }

    #[verifier::rlimit(100)]
    #[verifier::spinoff_prover]
    fn parse_while(&mut self) -> (r: WhispemResult<Stmt>)
        requires
            old(self).wf(),
            !(old(self).tokens()[old(self).offset()].token is Eof),
        ensures
            old(self).follows(final(self)),
            r is Ok ==> old(self).before(final(self)),
            parsed_stmt(
                r,
                grammar::parse_while(old(self).stream(), old(self).offset()),
                final(self).offset(),
            ),
        decreases old(self).tokens().len() - old(self).offset(), 50nat,
    {
        let line = self.line();
        self.advance();
        let condition = self.parse_expression()?;
        let body = self.parse_block()?;
        let s = Stmt::While { condition, body, line };
        proof {
            lemma_block_models(s);
        }
        Ok(s)
    }

    #[verifier::rlimit(100)]
    #[verifier::spinoff_prover]
    fn parse_for(&mut self) -> (r: WhispemResult<Stmt>)
        requires
            old(self).wf(),
            !(old(self).tokens()[old(self).offset()].token is Eof),
        ensures
            old(self).follows(final(self)),
            r is Ok ==> old(self).before(final(self)),
            parsed_stmt(
                r,
                grammar::parse_for(old(self).stream(), old(self).offset()),
                final(self).offset(),
            ),
        decreases old(self).tokens().len() - old(self).offset(), 50nat,
    {
        let line = self.line();
        self.advance();
        let variable = self.consume_identifier()?;
        self.consume(Token::In)?;
        let iterable = self.parse_expression()?;
        let body = self.parse_block()?;
        let s = Stmt::For { variable, iterable, body, line };
        proof {
            lemma_block_models(s);
        }
        Ok(s)
    }

    /// The parameters of a function in their parentheses.
    #[verifier::rlimit(100)]
    #[verifier::spinoff_prover]
    fn parse_params(&mut self) -> (r: WhispemResult<Vec<String>>)
        requires
            old(self).wf(),
        ensures
            old(self).follows(final(self)),
            match r {
                Ok(v) => grammar::parse_params(old(self).stream(), old(self).offset()) == Ok::<
                    (Seq<Seq<char>>, int),
                    ErrorModel,
                >((name_views(v@), final(self).offset())) && old(self).before(final(self)),
                Err(e) => grammar::parse_params(old(self).stream(), old(self).offset()) == Err::<
                    (Seq<Seq<char>>, int),
                    ErrorModel,
                >(e@),
            },
    {
        let ghost t = self.stream();
        self.consume(Token::LParen)?;
        let mut params: Vec<String> = Vec::new();
        let ghost start = self.offset();
        proof {
            assert(name_views(params@) =~= Seq::<Seq<char>>::empty());
        }
        if !self.at(&Token::RParen) {
            loop
                invariant_except_break
                    grammar::params_rest(t, start, Seq::empty()) == grammar::params_rest(
                        t,
                        self.offset(),
                        name_views(params@),
                    ),
                invariant
                    old(self).before(self),
                    t == old(self).stream(),
                    start > old(self).offset(),
                    grammar::consume(t, old(self).offset(), Token::LParen) == Ok::<
                        int,
                        ErrorModel,
                    >(start),
                    !grammar::is_at(t, start, Token::RParen),
                ensures
                    grammar::params_rest(t, start, Seq::empty()) == Ok::<
                        (Seq<Seq<char>>, int),
                        ErrorModel,
                    >((name_views(params@), self.offset())),
                decreases self.tokens().len() - self.offset(),
            {
                let ghost before = name_views(params@);
                let p = self.consume_identifier()?;
                proof {
                    assert(name_views(params@.push(p)) =~= before.push(p@));
                }
                params.push(p);
                if self.at(&Token::Comma) {
                    self.advance();
                } else {
                    break ;
                }
            }
        }
        self.consume(Token::RParen)?;
        Ok(params)
    }

    #[verifier::rlimit(100)]
    #[verifier::spinoff_prover]
    fn parse_function(&mut self) -> (r: WhispemResult<Stmt>)
        requires
            old(self).wf(),
            !(old(self).tokens()[old(self).offset()].token is Eof),
        ensures
            old(self).follows(final(self)),
            r is Ok ==> old(self).before(final(self)),
            parsed_stmt(
                r,
                grammar::parse_function(old(self).stream(), old(self).offset()),
                final(self).offset(),
            ),
        decreases old(self).tokens().len() - old(self).offset(), 50nat,
    {
        let line = self.line();
        self.advance();
        let name = self.consume_identifier()?;
        let params = self.parse_params()?;
        let body = self.parse_block()?;
        let s = Stmt::Function { name, params, body, line };
        proof {
            lemma_block_models(s);
        }
        Ok(s)
    }

    #[verifier::rlimit(100)]
    #[verifier::spinoff_prover]
    fn parse_return(&mut self) -> (r: WhispemResult<Stmt>)
        requires
            old(self).wf(),
            !(old(self).tokens()[old(self).offset()].token is Eof),
        ensures
            old(self).follows(final(self)),
            r is Ok ==> old(self).before(final(self)),
            parsed_stmt(
                r,
                grammar::parse_return(old(self).stream(), old(self).offset()),
                final(self).offset(),
            ),
        decreases old(self).tokens().len() - old(self).offset(), 50nat,
    {
        let line = self.line();
        self.advance();
        let value = if self.at(&Token::Newline) || self.at(&Token::RightBrace) || self.at(
            &Token::Eof,
        ) {
            None
        } else {
            Some(self.parse_expression()?)
        };
        Ok(Stmt::Return { value, line })
    }

    #[verifier::rlimit(100)]
    #[verifier::spinoff_prover]
    fn parse_block(&mut self) -> (r: WhispemResult<Vec<Stmt>>)
        requires
            old(self).wf(),
        ensures
            old(self).follows(final(self)),
            r is Ok ==> old(self).before(final(self)),
            parsed_stmts(
                r,
                grammar::parse_block(old(self).stream(), old(self).offset()),
                final(self).offset(),
            ),
        decreases old(self).tokens().len() - old(self).offset(), 45nat,
    {
        self.consume(Token::LeftBrace)?;
        self.block_statements()
    }

    /// The statements of a block, up to its closing brace.
    #[verifier::rlimit(100)]
    #[verifier::spinoff_prover]
    fn block_statements(&mut self) -> (r: WhispemResult<Vec<Stmt>>)
        requires
            old(self).wf(),
        ensures
            old(self).follows(final(self)),
            parsed_stmts(
                r,
                grammar::block_rest(old(self).stream(), old(self).offset(), Seq::empty()),
                final(self).offset(),
            ),
        decreases old(self).tokens().len() - old(self).offset(), 61nat,
    {
        let mut stmts: Vec<Stmt> = Vec::new();
        let ghost t = self.stream();
        let ghost start = self.offset();
        proof {
            assert(stmt_views(stmts@) =~= Seq::<StmtModel>::empty());
        }
        loop
            invariant
                old(self).follows(self),
                t == old(self).stream(),
                start == old(self).offset(),
                grammar::block_rest(t, start, Seq::empty()) == grammar::block_rest(
                    t,
                    self.offset(),
                    stmt_views(stmts@),
                ),
            decreases self.tokens().len() - self.offset(),
        {
            let ghost here = self.offset();
            let ghost before = stmt_views(stmts@);
            proof {
                grammar::lemma_skip_newlines(t, here);
            }
            self.skip_newlines();
            let ghost at = self.offset();
            if self.at(&Token::RightBrace) {
                self.advance();
                return Ok(stmts);
            }
            if self.at(&Token::Eof) {
                return Err(self.unexpected_end());
            }
            let s = match self.parse_statement() {
                Ok(s) => s,
                Err(e) => {
                    return Err(e);
                },
            };
            proof {
                assert(stmt_views(stmts@.push(s)) =~= before.push(s@));
            }
            stmts.push(s);
        }
    }

    /// The error for a block that the text ends in.
    fn unexpected_end(&self) -> (e: WhispemError)
        requires
            self.wf(),
        ensures
            e@ == grammar::unexpected_end(self.stream(), self.offset()),
    {
        WhispemError::new(
            ErrorKind::UnexpectedEof,
            Span::new(self.current().line, self.current().column),
        )
    }

    /// A statement that starts with a name: an assignment to an element,
    /// `name[index] = value`, or a call, `name(arguments)`.
    #[verifier::rlimit(100)]
    #[verifier::spinoff_prover]
    fn parse_identifier_stmt(&mut self) -> (r: WhispemResult<Stmt>)
        requires
            old(self).wf(),
        ensures
            old(self).follows(final(self)),
            r is Ok ==> old(self).before(final(self)),
            parsed_stmt(
                r,
                grammar::parse_identifier_stmt(old(self).stream(), old(self).offset()),
                final(self).offset(),
            ),
        decreases old(self).tokens().len() - old(self).offset(), 50nat,
    {
        let line = self.line();
        let name = self.consume_identifier()?;
        if self.at(&Token::LeftBracket) {
            self.advance();
            let index = self.parse_expression()?;
            self.consume(Token::RightBracket)?;
            self.consume(Token::Equals)?;
            let value = self.parse_expression()?;
            return Ok(Stmt::IndexAssign { object: name, index, value, line });
        }
        if self.at(&Token::LParen) {
            let arguments = self.parse_call_args()?;
            proof {
                lemma_call_model(name, arguments, line);
            }
            return Ok(Stmt::Expression { expr: Expr::Call { name, arguments, line }, line });
        }
        Err(self.unexpected("'(' or '['"))
    }

    /// Expressions separated by commas.
    #[verifier::rlimit(100)]
    #[verifier::spinoff_prover]
    fn parse_list(&mut self) -> (r: WhispemResult<Vec<Expr>>)
        requires
            old(self).wf(),
        ensures
            old(self).follows(final(self)),
            r is Ok ==> old(self).before(final(self)),
            parsed_exprs(
                r,
                grammar::list_rest(old(self).stream(), old(self).offset(), Seq::empty()),
                final(self).offset(),
            ),
        decreases old(self).tokens().len() - old(self).offset(), 41nat,
    {
        let ghost t = self.stream();
        let ghost start = self.offset();
        let mut items: Vec<Expr> = Vec::new();
        proof {
            assert(expr_views(items@) =~= Seq::<ExprModel>::empty());
        }
        loop
            invariant_except_break
                grammar::list_rest(t, start, Seq::empty()) == grammar::list_rest(
                    t,
                    self.offset(),
                    expr_views(items@),
                ),
                items@.len() == 0 ==> self.offset() == start,
            invariant
                old(self).follows(self),
                t == old(self).stream(),
                start == old(self).offset(),
                items@.len() > 0 ==> self.offset() > start,
            ensures
                grammar::list_rest(t, start, Seq::empty()) == Ok::<
                    (Seq<ExprModel>, int),
                    ErrorModel,
                >((expr_views(items@), self.offset())),
                self.offset() > start,
            decreases self.tokens().len() - self.offset(),
        {
            let ghost before = expr_views(items@);
            let e = self.parse_expression()?;
            proof {
                assert(expr_views(items@.push(e)) =~= before.push(e@));
            }
            items.push(e);
            if self.at(&Token::Comma) {
                self.advance();
            } else {
                break ;
            }
        }
        Ok(items)
    }

    /// Arguments in parentheses, separated by commas.
    #[verifier::rlimit(100)]
    #[verifier::spinoff_prover]
    fn parse_call_args(&mut self) -> (r: WhispemResult<Vec<Expr>>)
        requires
            old(self).wf(),
        ensures
            old(self).follows(final(self)),
            r is Ok ==> old(self).before(final(self)),
            parsed_exprs(
                r,
                grammar::parse_call_args(old(self).stream(), old(self).offset()),
                final(self).offset(),
            ),
        decreases old(self).tokens().len() - old(self).offset(), 23nat,
    {
        self.consume(Token::LParen)?;
        if self.at(&Token::RParen) {
            self.advance();
            let args: Vec<Expr> = Vec::new();
            proof {
                assert(expr_views(args@) =~= Seq::<ExprModel>::empty());
            }
            return Ok(args);
        }
        let args = self.parse_list()?;
        self.consume(Token::RParen)?;
        Ok(args)
    }

    #[verifier::rlimit(100)]
    #[verifier::spinoff_prover]
    fn parse_expression(&mut self) -> (r: WhispemResult<Expr>)
        requires
            old(self).wf(),
        ensures
            old(self).follows(final(self)),
            r is Ok ==> old(self).before(final(self)),
            parsed_expr(
                r,
                grammar::parse_expression(old(self).stream(), old(self).offset()),
                final(self).offset(),
            ),
        decreases old(self).tokens().len() - old(self).offset(), 40nat,
    {
        self.parse_or()
    }

    #[verifier::rlimit(100)]
    #[verifier::spinoff_prover]
    fn parse_or(&mut self) -> (r: WhispemResult<Expr>)
        requires
            old(self).wf(),
        ensures
            old(self).follows(final(self)),
            r is Ok ==> old(self).before(final(self)),
            parsed_expr(
                r,
                grammar::parse_or(old(self).stream(), old(self).offset()),
                final(self).offset(),
            ),
        decreases old(self).tokens().len() - old(self).offset(), 38nat,
    {
        let ghost t = self.stream();
        let mut expr = self.parse_and()?;
        while self.at(&Token::Or)
            invariant
                old(self).before(self),
                t == old(self).stream(),
                grammar::parse_or(t, old(self).offset()) == grammar::or_rest(
                    t,
                    self.offset(),
                    expr@,
                ),
            decreases self.tokens().len() - self.offset(),
        {
            self.advance();
            let right = self.parse_and()?;
            expr = Expr::Logical { left: Box::new(expr), op: LogicalOp::Or, right: Box::new(right) };
        }
        Ok(expr)
    }

    #[verifier::rlimit(100)]
    #[verifier::spinoff_prover]
    fn parse_and(&mut self) -> (r: WhispemResult<Expr>)
        requires
            old(self).wf(),
        ensures
            old(self).follows(final(self)),
            r is Ok ==> old(self).before(final(self)),
            parsed_expr(
                r,
                grammar::parse_and(old(self).stream(), old(self).offset()),
                final(self).offset(),
            ),
        decreases old(self).tokens().len() - old(self).offset(), 36nat,
    {
        let ghost t = self.stream();
        let mut expr = self.parse_comparison()?;
        while self.at(&Token::And)
            invariant
                old(self).before(self),
                t == old(self).stream(),
                grammar::parse_and(t, old(self).offset()) == grammar::and_rest(
                    t,
                    self.offset(),
                    expr@,
                ),
            decreases self.tokens().len() - self.offset(),
        {
            self.advance();
            let right = self.parse_comparison()?;
            expr = Expr::Logical {
                left: Box::new(expr),
                op: LogicalOp::And,
                right: Box::new(right),
            };
        }
        Ok(expr)
    }

    /// The comparison operator that the next token is, if it is one.
    fn comparison_op(&self) -> (op: Option<BinaryOp>)
        requires
            self.wf(),
        ensures
            op == grammar::comparison_op(self.stream()[self.offset()].token.kind),
            op is Some ==> self.offset() + 1 < self.tokens().len(),
    {
        let op = match self.current().token {
            Token::Less => Some(BinaryOp::Less),
            Token::LessEqual => Some(BinaryOp::LessEqual),
            Token::Greater => Some(BinaryOp::Greater),
            Token::GreaterEqual => Some(BinaryOp::GreaterEqual),
            Token::EqualEqual => Some(BinaryOp::EqualEqual),
            Token::BangEqual => Some(BinaryOp::BangEqual),
            _ => None,
        };
        proof {
            if op is Some && self.offset() == self.tokens().len() - 1 {
                assert(self.tokens().last().token is Eof);
            }
        }
        op
    }

    fn addition_op(&self) -> (op: Option<BinaryOp>)
        requires
            self.wf(),
        ensures
            op == grammar::addition_op(self.stream()[self.offset()].token.kind),
            op is Some ==> self.offset() + 1 < self.tokens().len(),
    {
        let op = match self.current().token {
            Token::Plus => Some(BinaryOp::Add),
            Token::Minus => Some(BinaryOp::Sub),
            _ => None,
        };
        proof {
            if op is Some && self.offset() == self.tokens().len() - 1 {
                assert(self.tokens().last().token is Eof);
            }
        }
        op
    }

    fn multiplication_op(&self) -> (op: Option<BinaryOp>)
        requires
            self.wf(),
        ensures
            op == grammar::multiplication_op(self.stream()[self.offset()].token.kind),
            op is Some ==> self.offset() + 1 < self.tokens().len(),
    {
        let op = match self.current().token {
            Token::Star => Some(BinaryOp::Mul),
            Token::Slash => Some(BinaryOp::Div),
            Token::Percent => Some(BinaryOp::Mod),
            _ => None,
        };
        proof {
            if op is Some && self.offset() == self.tokens().len() - 1 {
                assert(self.tokens().last().token is Eof);
            }
        }
        op
    }

    #[verifier::rlimit(100)]
    #[verifier::spinoff_prover]
    fn parse_comparison(&mut self) -> (r: WhispemResult<Expr>)
        requires
            old(self).wf(),
        ensures
            old(self).follows(final(self)),
            r is Ok ==> old(self).before(final(self)),
            parsed_expr(
                r,
                grammar::parse_comparison(old(self).stream(), old(self).offset()),
                final(self).offset(),
            ),
        decreases old(self).tokens().len() - old(self).offset(), 34nat,
    {
        let ghost t = self.stream();
        let mut expr = self.parse_addition()?;
        loop
            invariant
                old(self).before(self),
                t == old(self).stream(),
                grammar::parse_comparison(t, old(self).offset()) == grammar::comparison_rest(
                    t,
                    self.offset(),
                    expr@,
                ),
            ensures
                grammar::comparison_rest(t, self.offset(), expr@) == Ok::<
                    (ExprModel, int),
                    ErrorModel,
                >((expr@, self.offset())),
            decreases self.tokens().len() - self.offset(),
        {
            let op = match self.comparison_op() {
                Some(op) => op,
                None => {
                    break ;
                },
            };
            self.advance();
            let right = self.parse_addition()?;
            expr = Expr::Binary { left: Box::new(expr), op, right: Box::new(right) };
        }
        Ok(expr)
    }

    #[verifier::rlimit(100)]
    #[verifier::spinoff_prover]
    fn parse_addition(&mut self) -> (r: WhispemResult<Expr>)
        requires
            old(self).wf(),
        ensures
            old(self).follows(final(self)),
            r is Ok ==> old(self).before(final(self)),
            parsed_expr(
                r,
                grammar::parse_addition(old(self).stream(), old(self).offset()),
                final(self).offset(),
            ),
        decreases old(self).tokens().len() - old(self).offset(), 32nat,
    {
        let ghost t = self.stream();
        let mut expr = self.parse_multiplication()?;
        loop
            invariant
                old(self).before(self),
                t == old(self).stream(),
                grammar::parse_addition(t, old(self).offset()) == grammar::addition_rest(
                    t,
                    self.offset(),
                    expr@,
                ),
            ensures
                grammar::addition_rest(t, self.offset(), expr@) == Ok::<
                    (ExprModel, int),
                    ErrorModel,
                >((expr@, self.offset())),
            decreases self.tokens().len() - self.offset(),
        {
            let op = match self.addition_op() {
                Some(op) => op,
                None => {
                    break ;
                },
            };
            self.advance();
            let right = self.parse_multiplication()?;
            expr = Expr::Binary { left: Box::new(expr), op, right: Box::new(right) };
        }
        Ok(expr)
    }

    #[verifier::rlimit(100)]
    #[verifier::spinoff_prover]
    fn parse_multiplication(&mut self) -> (r: WhispemResult<Expr>)
        requires
            old(self).wf(),
        ensures
            old(self).follows(final(self)),
            r is Ok ==> old(self).before(final(self)),
            parsed_expr(
                r,
                grammar::parse_multiplication(old(self).stream(), old(self).offset()),
                final(self).offset(),
            ),
        decreases old(self).tokens().len() - old(self).offset(), 30nat,
    {
        let ghost t = self.stream();
        let mut expr = self.parse_unary()?;
        loop
            invariant
                old(self).before(self),
                t == old(self).stream(),
                grammar::parse_multiplication(t, old(self).offset())
                    == grammar::multiplication_rest(t, self.offset(), expr@),
            ensures
                grammar::multiplication_rest(t, self.offset(), expr@) == Ok::<
                    (ExprModel, int),
                    ErrorModel,
                >((expr@, self.offset())),
            decreases self.tokens().len() - self.offset(),
        {
            let op = match self.multiplication_op() {
                Some(op) => op,
                None => {
                    break ;
                },
            };
            self.advance();
            let right = self.parse_unary()?;
            expr = Expr::Binary { left: Box::new(expr), op, right: Box::new(right) };
        }
        Ok(expr)
    }

    #[verifier::rlimit(100)]
    #[verifier::spinoff_prover]
    fn parse_unary(&mut self) -> (r: WhispemResult<Expr>)
        requires
            old(self).wf(),
        ensures
            old(self).follows(final(self)),
            r is Ok ==> old(self).before(final(self)),
            parsed_expr(
                r,
                grammar::parse_unary(old(self).stream(), old(self).offset()),
                final(self).offset(),
            ),
        decreases old(self).tokens().len() - old(self).offset(), 28nat,
    {
        if self.at(&Token::Not) || self.at(&Token::Bang) {
            self.advance();
            let operand = self.parse_unary()?;
            Ok(Expr::Unary { op: UnaryOp::Not, operand: Box::new(operand) })
        } else if self.at(&Token::Minus) {
            self.advance();
            let operand = self.parse_unary()?;
            Ok(Expr::Unary { op: UnaryOp::Neg, operand: Box::new(operand) })
        } else {
            self.parse_postfix()
        }
    }

    #[verifier::rlimit(100)]
    #[verifier::spinoff_prover]
    fn parse_postfix(&mut self) -> (r: WhispemResult<Expr>)
        requires
            old(self).wf(),
        ensures
            old(self).follows(final(self)),
            r is Ok ==> old(self).before(final(self)),
            parsed_expr(
                r,
                grammar::parse_postfix(old(self).stream(), old(self).offset()),
                final(self).offset(),
            ),
        decreases old(self).tokens().len() - old(self).offset(), 26nat,
    {
        let ghost t = self.stream();
        let mut expr = self.parse_call()?;
        while self.at(&Token::LeftBracket)
            invariant
                old(self).before(self),
                t == old(self).stream(),
                grammar::parse_postfix(t, old(self).offset()) == grammar::postfix_rest(
                    t,
                    self.offset(),
                    expr@,
                ),
            decreases self.tokens().len() - self.offset(),
        {
            self.advance();
            let index = self.parse_expression()?;
            self.consume(Token::RightBracket)?;
            expr = Expr::Index { object: Box::new(expr), index: Box::new(index) };
        }
        Ok(expr)
    }

    #[verifier::rlimit(100)]
    #[verifier::spinoff_prover]
    fn parse_call(&mut self) -> (r: WhispemResult<Expr>)
        requires
            old(self).wf(),
        ensures
            old(self).follows(final(self)),
            r is Ok ==> old(self).before(final(self)),
            parsed_expr(
                r,
                grammar::parse_call(old(self).stream(), old(self).offset()),
                final(self).offset(),
            ),
        decreases old(self).tokens().len() - old(self).offset(), 24nat,
    {
        let expr = self.parse_term()?;
        if self.at(&Token::LParen) {
            if let Expr::Variable(name) = expr {
                let line = self.current().line;
                let arguments = self.parse_call_args()?;
                proof {
                    lemma_call_model(name, arguments, line);
                }
                return Ok(Expr::Call { name, arguments, line });
            }
        }
        Ok(expr)
    }

    /// A built-in function's name, when the next token is its keyword.
    fn builtin_name(&self) -> (r: Option<&'static str>)
        requires
            self.wf(),
        ensures
            match r {
                Some(s) => grammar::builtin_word(self.stream()[self.offset()].token.kind)
                    == Some(s@),
                None => grammar::builtin_word(self.stream()[self.offset()].token.kind) is None,
            },
    {
        match self.current().token {
            Token::Length => Some("length"),
            Token::Push => Some("push"),
            Token::Pop => Some("pop"),
            Token::Reverse => Some("reverse"),
            Token::Slice => Some("slice"),
            Token::Range => Some("range"),
            Token::Input => Some("input"),
            Token::ReadFile => Some("read_file"),
            Token::WriteFile => Some("write_file"),
            Token::Keys => Some("keys"),
            Token::Values => Some("values"),
            Token::HasKey => Some("has_key"),
            _ => None,
        }
    }

    /// The expression that the next token is by itself: a number, a
    /// string, `true`, `false` or a name.
    fn literal(&self) -> (r: Option<Expr>)
        requires
            self.wf(),
        ensures
            match r {
                Some(e) => grammar::literal(self.stream()[self.offset()].token) == Some(e@),
                None => grammar::literal(self.stream()[self.offset()].token) is None,
            },
    {
        match &self.current().token {
            Token::Number(n) => Some(Expr::Number(*n)),
            Token::Str(s) => Some(Expr::Str(s.clone())),
            Token::True => Some(Expr::Bool(true)),
            Token::False => Some(Expr::Bool(false)),
            Token::Identifier(name) => Some(Expr::Variable(name.clone())),
            _ => None,
        }
    }

    /// The entries of a dictionary literal.
    #[verifier::rlimit(100)]
    #[verifier::spinoff_prover]
    fn parse_entries(&mut self) -> (r: WhispemResult<Vec<(Expr, Expr)>>)
        requires
            old(self).wf(),
        ensures
            old(self).follows(final(self)),
            match r {
                Ok(v) => grammar::entries_rest(old(self).stream(), old(self).offset(), Seq::empty())
                    == Ok::<(Seq<(ExprModel, ExprModel)>, int), ErrorModel>(
                    (pair_views(v@), final(self).offset()),
                ),
                Err(e) => grammar::entries_rest(
                    old(self).stream(),
                    old(self).offset(),
                    Seq::empty(),
                ) == Err::<(Seq<(ExprModel, ExprModel)>, int), ErrorModel>(e@),
            },
        decreases old(self).tokens().len() - old(self).offset(), 42nat,
    {
        let ghost t = self.stream();
        let ghost start = self.offset();
        let mut pairs: Vec<(Expr, Expr)> = Vec::new();
        proof {
            assert(pair_views(pairs@) =~= Seq::<(ExprModel, ExprModel)>::empty());
        }
        loop
            invariant_except_break
                grammar::entries_rest(t, start, Seq::empty()) == grammar::entries_rest(
                    t,
                    self.offset(),
                    pair_views(pairs@),
                ),
            invariant
                old(self).follows(self),
                t == old(self).stream(),
                start == old(self).offset(),
            ensures
                grammar::entries_rest(t, start, Seq::empty()) == Ok::<
                    (Seq<(ExprModel, ExprModel)>, int),
                    ErrorModel,
                >((pair_views(pairs@), self.offset())),
            decreases self.tokens().len() - self.offset(),
        {
            let ghost here = self.offset();
            proof {
                grammar::lemma_skip_newlines(t, here);
            }
            self.skip_newlines();
            let key = self.parse_expression()?;
            self.consume(Token::Colon)?;
            let value = self.parse_expression()?;
            let ghost before = pair_views(pairs@);
            proof {
                assert(pair_views(pairs@.push((key, value))) =~= before.push((key@, value@)));
                grammar::lemma_skip_newlines(t, self.offset());
            }
            pairs.push((key, value));
            self.skip_newlines();
            if self.at(&Token::Comma) {
                self.advance();
            } else {
                break ;
            }
        }
        Ok(pairs)
    }

    #[verifier::rlimit(100)]
    #[verifier::spinoff_prover]
    fn parse_term(&mut self) -> (r: WhispemResult<Expr>)
        requires
            old(self).wf(),
        ensures
            old(self).follows(final(self)),
            r is Ok ==> old(self).before(final(self)),
            parsed_expr(
                r,
                grammar::parse_term(old(self).stream(), old(self).offset()),
                final(self).offset(),
            ),
        decreases old(self).tokens().len() - old(self).offset(), 22nat,
    {
        let ghost t = self.stream();
        let ghost pos = self.offset();
        if let Some(e) = self.literal() {
            proof {
                if pos == self.tokens().len() - 1 {
                    assert(self.tokens().last().token is Eof);
                }
            }
            self.advance();
            return Ok(e);
        }
        if let Some(name) = self.builtin_name() {
            proof {
                if pos == self.tokens().len() - 1 {
                    assert(self.tokens().last().token is Eof);
                }
            }
            self.advance();
            return Ok(Expr::Variable(String::from_str(name)));
        }
        if self.at(&Token::LeftBracket) {
            self.advance();
            if self.at(&Token::RightBracket) {
                self.advance();
                let elements: Vec<Expr> = Vec::new();
                proof {
                    lemma_array_model(elements);
                    assert(expr_views(elements@) =~= Seq::<ExprModel>::empty());
                }
                return Ok(Expr::Array(elements));
            }
            let elements = self.parse_list()?;
            self.consume(Token::RightBracket)?;
            proof {
                lemma_array_model(elements);
            }
            return Ok(Expr::Array(elements));
        }
        if self.at(&Token::LeftBrace) {
            self.advance();
            proof {
                grammar::lemma_skip_newlines(t, self.offset());
            }
            self.skip_newlines();
            if self.at(&Token::RightBrace) {
                self.advance();
                let pairs: Vec<(Expr, Expr)> = Vec::new();
                proof {
                    lemma_dict_model(pairs);
                    assert(pair_views(pairs@) =~= Seq::<(ExprModel, ExprModel)>::empty());
                }
                return Ok(Expr::Dict(pairs));
            }
            let pairs = self.parse_entries()?;
            proof {
                grammar::lemma_skip_newlines(t, self.offset());
            }
            self.skip_newlines();
            self.consume(Token::RightBrace)?;
            proof {
                lemma_dict_model(pairs);
            }
            return Ok(Expr::Dict(pairs));
        }
        if self.at(&Token::LParen) {
            self.advance();
            let expr = self.parse_expression()?;
            self.consume(Token::RParen)?;
            return Ok(expr);
        }
        Err(self.unexpected("expression"))
    }
}

} // verus!
