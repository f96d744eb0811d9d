//! The syntax tree and the recursive-descent parser that builds it from a
//! token stream.

use vstd::prelude::*;
use vstd::string::StringExecFns;

use crate::lexer::{scan, Lexer, ScanResult, Token, TokenData, TokenDataV};
use crate::loc::Loc;

verus! {

pub type NodeList = Vec<Node>;

/// An arithmetic operator of the language.
#[derive(Clone, Copy, Debug, PartialEq, Eq, Structural)]
pub enum BinOp {
    Plus,
    Minus,
    Mult,
    Div,
}

/// A comparison operator of the language.
#[derive(Clone, Copy, Debug, PartialEq, Eq, Structural)]
pub enum CmpOp {
    Less,
    Equal,
    Greater,
    LtEq,
    GtEq,
}

/// A node of the syntax tree. Every variant carries the source location it
/// was parsed at, used for diagnostics.
#[derive(Debug)]
pub enum Node {
    FuncCall(Loc, String, NodeList),
    StrLit(Loc, String),
    Block(Loc, NodeList),
    VarDecl(Loc, String, Box<Node>),
    VarAccess(Loc, String),
    VarAssign(Loc, String, Box<Node>),
    Int(Loc, usize),
    BinOp(Loc, BinOp, Box<Node>, Box<Node>),
    CmpOp(Loc, CmpOp, Box<Node>, Box<Node>),
    If { loc: Loc, cond: Box<Node>, then_branch: Box<Node>, else_branch: Option<Box<Node>> },
    Nop(Loc),
    While { loc: Loc, cond: Box<Node>, body: Box<Node> },
    FuncDef { loc: Loc, name: String, args: Vec<String>, body: Box<Node> },
    Buf(Loc, usize),
    Return(Loc, Box<Node>),
    PtrAccess(Loc, Box<Node>),
    PtrAssign(Loc, Box<Node>, Box<Node>),
    VarAddr(Loc, String),
}

/// How parsing failed: a syntax error at a location, a lexical error passed
/// through, or the internal signal that a block's closing brace was reached.
#[derive(Debug)]
pub enum ParseError {
    Error(Loc, String),
    LexerError(Loc, String),
    BlockEnding,
}

pub type ParseResult<T> = Result<T, ParseError>;

/// Run the lexer to the end of its input and parse the token stream as the
/// top-level block: on success the result is a `Node::Block` holding the
/// top-level statements in source order. The first lexical error comes back
/// as a `LexerError` with its own location and message, before any parsing;
/// an empty input is a syntax error at the end of the source.
pub fn parse(lexer: Lexer) -> (r: ParseResult<Node>)
    requires
        lexer.wf(),
    ensures
        r matches Ok(n) ==> n is Block,
        r matches Err(e) ==> !(e is BlockEnding),
        r matches Err(e) ==> e is LexerError ==> (exists|p: int|
            0 <= p <= lexer.code.view().len() && ((#[trigger] scan(lexer.code.view(), p)) matches
                ScanResult::Fail(start, m) && e->LexerError_0.offset == start
                && e->LexerError_1.view() == m)),
{
    let mut lx = lexer;
    let mut tokens: Vec<Token> = Vec::new();
    loop
        invariant
            lx.wf(),
            lx.code == lexer.code,
        decreases lx.code.view().len() - lx.pos,
    {
        let ghost p0 = lx.pos as int;
        match lx.next_token() {
            None => {
                break;
            },
            Some(Ok(tok)) => {
                tokens.push(tok);
            },
            Some(Err(e)) => {
                proof {
                    assert(scan(lexer.code.view(), p0) matches ScanResult::Fail(start, m)
                        && e.0.offset == start && e.1.view() == m);
                }
                return Err(ParseError::LexerError(e.0, e.1));
            },
        }
    }
    if tokens.len() == 0 {
        return Err(ParseError::Error(lx.loc, "Expected statement".to_owned()));
    }
    Parser { lexer: tokens, i: 0 }.parse_block()
}

/// The parser's state: the token stream and the next token to look at.
pub struct Parser {
    pub lexer: Vec<Token>,
    pub i: usize,
}

impl Parser {
    /// The cursor sits inside the nonempty token stream (or one past it).
    pub open spec fn wf(&self) -> bool {
        self.i <= self.lexer.view().len() && self.lexer.view().len() > 0
    }

    /// Whether every token has been consumed.
    pub fn is_empty(&self) -> (r: bool)
        ensures
            r == (self.i >= self.lexer.view().len()),
    {
        self.i >= self.lexer.len()
    }

    /// The next token's data, without consuming it.
    pub fn peek(&self) -> (r: Option<&TokenData>)
        ensures
            match r {
                Some(t) => self.i < self.lexer.view().len() && *t == self.lexer.view()[self.i as int].data,
                None => self.i >= self.lexer.view().len(),
            },
    {
        if self.i < self.lexer.len() {
            Some(&self.lexer[self.i].data)
        } else {
            None
        }
    }

    /// Consume one token.
    fn nom(&mut self)
        requires
            old(self).i < old(self).lexer.view().len(),
        ensures
            final(self).i == old(self).i + 1,
            final(self).lexer == old(self).lexer,
    {
        let n = self.lexer.len();
        self.i = self.i + 1;
    }

    /// The location of the next token, or of the last one once the stream
    /// is exhausted.
    pub fn loc(&self) -> (r: Loc)
        requires
            self.lexer.view().len() > 0,
        ensures
            r == (if self.i < self.lexer.view().len() {
                self.lexer.view()[self.i as int].loc
            } else {
                self.lexer.view()[self.lexer.view().len() - 1].loc
            }),
    {
        let i = if self.i < self.lexer.len() {
            self.i
        } else {
            self.lexer.len() - 1
        };
        self.lexer[i].loc.clone()
    }

    /// Consume one token — the cursor advances even on a mismatch — and
    /// demand that it matches `tok`, payloads of names, strings and numbers
    /// included: the call succeeds exactly when a token remained and its
    /// data equals `tok`.
    pub fn expect(&mut self, tok: TokenData) -> (r: ParseResult<()>)
        requires
            old(self).wf(),
        ensures
            final(self).wf(),
            final(self).lexer == old(self).lexer,
            old(self).i <= final(self).i <= old(self).i + 1,
            old(self).i < old(self).lexer.view().len() ==> final(self).i == old(self).i + 1,
            r is Ok <==> (old(self).i < old(self).lexer.view().len() && old(self).lexer.view()[old(self).i as int].data.view() == tok.view()),
            r matches Err(e) ==> e is Error,
    {
        if self.i >= self.lexer.len() {
            return Err(
                ParseError::Error(
                    self.loc(),
                    "Expected ".to_owned().concat(token_name(&tok)),
                ),
            );
        }
        let matches_tok = token_matches(&self.lexer[self.i].data, &tok);
        self.nom();
        if matches_tok {
            Ok(())
        } else {
            Err(
                ParseError::Error(
                    self.loc(),
                    "Expected ".to_owned().concat(token_name(&tok)),
                ),
            )
        }
    }

    /// Parse statements until the stream ends or a closing brace is found.
    #[verifier::loop_isolation(false)]
    pub fn parse_block(&mut self) -> (r: ParseResult<Node>)
        requires
            old(self).wf(),
        ensures
            final(self).wf(),
            final(self).lexer == old(self).lexer,
            final(self).i >= old(self).i,
            r matches Ok(n) ==> n is Block,
            r matches Err(e) ==> e is Error,
        decreases old(self).lexer.view().len() - old(self).i, 3nat,
    {
        let loc = self.loc();
        let mut statements: Vec<Node> = Vec::new();
        loop
            invariant
                self.wf(),
                self.lexer == old(self).lexer,
                self.i >= old(self).i,
            decreases self.lexer.view().len() - self.i,
        {
            if self.is_empty() {
                break;
            }
            match self.parse_statement() {
                Ok(st) => {
                    statements.push(st);
                },
                Err(ParseError::BlockEnding) => {
                    break;
                },
                Err(e) => {
                    return Err(e);
                },
            }
        }
        Ok(Node::Block(loc, statements))
    }

    /// Parse one statement: a declaration, an assignment, a control-flow
    /// form, a function definition, a pointer store, or a bare expression.
    /// A closing brace reports `BlockEnding` to the enclosing block.
    #[verifier::loop_isolation(false)]
    pub fn parse_statement(&mut self) -> (r: ParseResult<Node>)
        requires
            old(self).wf(),
            old(self).i < old(self).lexer.view().len(),
        ensures
            final(self).wf(),
            final(self).lexer == old(self).lexer,
            final(self).i >= old(self).i,
            r is Ok ==> final(self).i > old(self).i,
            r matches Err(e) && e is BlockEnding ==> final(self).i > old(self).i,
            r matches Err(e) ==> !(e is LexerError),
            r matches Ok(n) ==> (match old(self).lexer.view()[old(self).i as int].data.view() {
                TokenDataV::Let => n is VarDecl,
                TokenDataV::If => n is If,
                TokenDataV::Unless => n matches Node::If {
                    loc: _,
                    cond: _,
                    then_branch: tb,
                    else_branch: eb,
                } && *tb is Nop && eb is Some,
                TokenDataV::While => n is While,
                TokenDataV::Fun => n is FuncDef,
                TokenDataV::Bang => n is PtrAssign,
                TokenDataV::Return => n is Return,
                TokenDataV::Name(nm) => (n matches Node::FuncCall(_, f, _) && f.view() == nm) || (
                n matches Node::VarAssign(_, x, _) && x.view() == nm),
                TokenDataV::RCurly => false,
                _ => true,
            }),
            r is Ok && !(old(self).lexer.view()[old(self).i as int].data.view() is If
                || old(self).lexer.view()[old(self).i as int].data.view() is Unless || old(
                self,
            ).lexer.view()[old(self).i as int].data.view() is While || old(
                self,
            ).lexer.view()[old(self).i as int].data.view() is Fun) ==> final(self).i > 0 && old(
                self,
            ).lexer.view()[final(self).i - 1].data.view() is Semicolon,
        decreases old(self).lexer.view().len() - old(self).i, 2nat,
    {
        let loc = self.loc();
        let res: Node = match self.peek() {
            Some(TokenData::Name(name)) => {
                let name = name.clone();
                self.nom();
                match self.peek() {
                    Some(TokenData::LParen) => {
                        self.nom();
                        let mut args: Vec<Node> = Vec::new();
                        match self.parse_expr() {
                            Ok(a) => {
                                args.push(a);
                            },
                            Err(e) => {
                                return Err(e);
                            },
                        }
                        loop
                            invariant
                                self.wf(),
                                self.lexer == old(self).lexer,
                                self.i > old(self).i,
                            decreases self.lexer.view().len() - self.i,
                        {
                            match self.peek() {
                                Some(TokenData::Comma) => {
                                    self.nom();
                                    match self.parse_expr() {
                                        Ok(a) => {
                                            args.push(a);
                                        },
                                        Err(e) => {
                                            return Err(e);
                                        },
                                    }
                                },
                                _ => {
                                    break;
                                },
                            }
                        }
                        match self.expect(TokenData::RParen) {
                            Ok(_) => {},
                            Err(e) => {
                                return Err(e);
                            },
                        }
                        Node::FuncCall(loc, name, args)
                    },
                    Some(TokenData::Equals) => {
                        self.nom();
                        let value = match self.parse_expr() {
                            Ok(v) => v,
                            Err(e) => {
                                return Err(e);
                            },
                        };
                        Node::VarAssign(loc, name, Box::new(value))
                    },
                    _ => {
                        return Err(
                            ParseError::Error(loc, "Expected '(' or '='".to_owned()),
                        );
                    },
                }
            },
            Some(TokenData::Let) => {
                self.nom();
                match self.peek() {
                    Some(TokenData::Name(name)) => {
                        let name = name.clone();
                        self.nom();
                        match self.expect(TokenData::Equals) {
                            Ok(_) => {},
                            Err(e) => {
                                return Err(e);
                            },
                        }
                        let init = match self.parse_expr() {
                            Ok(v) => v,
                            Err(e) => {
                                return Err(e);
                            },
                        };
                        Node::VarDecl(loc, name, Box::new(init))
                    },
                    _ => {
                        return Err(
                            ParseError::Error(loc, "Expected identifier".to_owned()),
                        );
                    },
                }
            },
            Some(TokenData::If) => {
                self.nom();
                let cond = match self.parse_expr() {
                    Ok(v) => v,
                    Err(e) => {
                        return Err(e);
                    },
                };
                match self.expect(TokenData::LCurly) {
                    Ok(_) => {},
                    Err(e) => {
                        return Err(e);
                    },
                }
                let then_branch = match self.parse_block() {
                    Ok(v) => v,
                    Err(e) => {
                        return Err(e);
                    },
                };
                if let Some(TokenData::Else) = self.peek() {
                    self.nom();
                    match self.expect(TokenData::LCurly) {
                        Ok(_) => {},
                        Err(e) => {
                            return Err(e);
                        },
                    }
                    let else_branch = match self.parse_block() {
                        Ok(v) => v,
                        Err(e) => {
                            return Err(e);
                        },
                    };
                    return Ok(
                        Node::If {
                            loc,
                            cond: Box::new(cond),
                            then_branch: Box::new(then_branch),
                            else_branch: Some(Box::new(else_branch)),
                        },
                    );
                } else {
                    return Ok(
                        Node::If {
                            loc,
                            cond: Box::new(cond),
                            then_branch: Box::new(then_branch),
                            else_branch: None,
                        },
                    );
                }
            },
            Some(TokenData::Unless) => {
                self.nom();
                let cond = match self.parse_expr() {
                    Ok(v) => v,
                    Err(e) => {
                        return Err(e);
                    },
                };
                match self.expect(TokenData::LCurly) {
                    Ok(_) => {},
                    Err(e) => {
                        return Err(e);
                    },
                }
                let then_branch = match self.parse_block() {
                    Ok(v) => v,
                    Err(e) => {
                        return Err(e);
                    },
                };
                return Ok(
                    Node::If {
                        loc: loc.clone(),
                        cond: Box::new(cond),
                        then_branch: Box::new(Node::Nop(loc)),
                        else_branch: Some(Box::new(then_branch)),
                    },
                );
            },
            Some(TokenData::While) => {
                self.nom();
                let cond = match self.parse_expr() {
                    Ok(v) => v,
                    Err(e) => {
                        return Err(e);
                    },
                };
                match self.expect(TokenData::LCurly) {
                    Ok(_) => {},
                    Err(e) => {
                        return Err(e);
                    },
                }
                let body = match self.parse_block() {
                    Ok(v) => v,
                    Err(e) => {
                        return Err(e);
                    },
                };
                return Ok(
                    Node::While { loc, cond: Box::new(cond), body: Box::new(body) },
                );
            },
            Some(TokenData::Fun) => {
                self.nom();
                let name = match self.parse_ident() {
                    Ok(v) => v,
                    Err(e) => {
                        return Err(e);
                    },
                };
                match self.expect(TokenData::LParen) {
                    Ok(_) => {},
                    Err(e) => {
                        return Err(e);
                    },
                }
                let mut args: Vec<String> = Vec::new();
                match self.parse_ident() {
                    Ok(a) => {
                        args.push(a);
                    },
                    Err(e) => {
                        return Err(e);
                    },
                }
                loop
                    invariant
                        self.wf(),
                        self.lexer == old(self).lexer,
                        self.i > old(self).i,
                    decreases self.lexer.view().len() - self.i,
                {
                    match self.peek() {
                        Some(TokenData::Comma) => {
                            self.nom();
                            match self.parse_ident() {
                                Ok(a) => {
                                    args.push(a);
                                },
                                Err(e) => {
                                    return Err(e);
                                },
                            }
                        },
                        _ => {
                            break;
                        },
                    }
                }
                match self.expect(TokenData::RParen) {
                    Ok(_) => {},
                    Err(e) => {
                        return Err(e);
                    },
                }
                match self.expect(TokenData::LCurly) {
                    Ok(_) => {},
                    Err(e) => {
                        return Err(e);
                    },
                }
                let body = match self.parse_block() {
                    Ok(v) => v,
                    Err(e) => {
                        return Err(e);
                    },
                };
                return Ok(Node::FuncDef { loc, name, args, body: Box::new(body) });
            },
            Some(TokenData::Return) => {
                self.nom();
                let value = match self.parse_expr() {
                    Ok(v) => v,
                    Err(e) => {
                        return Err(e);
                    },
                };
                Node::Return(loc, Box::new(value))
            },
            Some(TokenData::Bang) => {
                self.nom();
                let ptr = match self.parse_expr() {
                    Ok(v) => v,
                    Err(e) => {
                        return Err(e);
                    },
                };
                match self.expect(TokenData::Equals) {
                    Ok(_) => {},
                    Err(e) => {
                        return Err(e);
                    },
                }
                let value = match self.parse_expr() {
                    Ok(v) => v,
                    Err(e) => {
                        return Err(e);
                    },
                };
                Node::PtrAssign(loc, Box::new(ptr), Box::new(value))
            },
            Some(TokenData::RCurly) => {
                self.nom();
                return Err(ParseError::BlockEnding);
            },
            _ => {
                match self.parse_expr() {
                    Ok(v) => v,
                    Err(e) => {
                        return Err(e);
                    },
                }
            },
        };
        match self.expect(TokenData::Semicolon) {
            Ok(_) => {},
            Err(e) => {
                return Err(e);
            },
        }
        Ok(res)
    }

    /// Consume a plain name.
    fn parse_ident(&mut self) -> (r: ParseResult<String>)
        requires
            old(self).wf(),
        ensures
            final(self).wf(),
            final(self).lexer == old(self).lexer,
            old(self).i <= final(self).i <= old(self).i + 1,
            r is Ok ==> final(self).i == old(self).i + 1,
            r matches Err(e) ==> e is Error,
    {
        match self.peek() {
            Some(TokenData::Name(name)) => {
                let name = name.clone();
                self.nom();
                Ok(name)
            },
            _ => Err(ParseError::Error(self.loc(), "Expected identifier".to_owned())),
        }
    }

    /// Parse one expression. Operators are prefix: `+ a b`.
    #[verifier::loop_isolation(false)]
    pub fn parse_expr(&mut self) -> (r: ParseResult<Node>)
        requires
            old(self).wf(),
        ensures
            final(self).wf(),
            final(self).lexer == old(self).lexer,
            final(self).i >= old(self).i,
            r is Ok ==> final(self).i > old(self).i,
            r matches Err(e) ==> e is Error,
            r matches Ok(n) ==> old(self).i < old(self).lexer.view().len() && (match old(
                self,
            ).lexer.view()[old(self).i as int].data.view() {
                TokenDataV::StrLit(text) => n matches Node::StrLit(_, t) && t.view() == text,
                TokenDataV::Int(v) => n matches Node::Int(_, value) && value as nat == v,
                TokenDataV::Name(nm) => if old(self).i + 1 < old(self).lexer.view().len() && old(
                    self,
                ).lexer.view()[old(self).i + 1].data.view() is LParen {
                    n matches Node::FuncCall(_, f, args) && f.view() == nm && args.view().len()
                        >= 1
                } else {
                    n matches Node::VarAccess(_, x) && x.view() == nm && final(self).i == old(
                        self,
                    ).i + 1
                },
                TokenDataV::Plus => n matches Node::BinOp(_, op, _, _) && op == BinOp::Plus,
                TokenDataV::Minus => n matches Node::BinOp(_, op, _, _) && op == BinOp::Minus,
                TokenDataV::Mult => n matches Node::BinOp(_, op, _, _) && op == BinOp::Mult,
                TokenDataV::Div => n matches Node::BinOp(_, op, _, _) && op == BinOp::Div,
                TokenDataV::Less => n matches Node::CmpOp(_, op, _, _) && op == CmpOp::Less,
                TokenDataV::EqEq => n matches Node::CmpOp(_, op, _, _) && op == CmpOp::Equal,
                TokenDataV::Greater => n matches Node::CmpOp(_, op, _, _) && op
                    == CmpOp::Greater,
                TokenDataV::LtEq => n matches Node::CmpOp(_, op, _, _) && op == CmpOp::LtEq,
                TokenDataV::GtEq => n matches Node::CmpOp(_, op, _, _) && op == CmpOp::GtEq,
                TokenDataV::Buf => n is Buf,
                TokenDataV::Bang => n is PtrAccess,
                TokenDataV::Amp => n is VarAddr,
                _ => false,
            }),
        decreases old(self).lexer.view().len() - old(self).i, 1nat,
    {
        let loc = self.loc();
        if self.is_empty() {
            return Err(ParseError::Error(loc, "Expected expression".to_owned()));
        }
        match self.peek() {
            Some(TokenData::StrLit(text)) => {
                let text = text.clone();
                self.nom();
                Ok(Node::StrLit(loc, text))
            },
            Some(TokenData::Name(name)) => {
                let name = name.clone();
                self.nom();
                match self.peek() {
                    Some(TokenData::LParen) => {
                        self.nom();
                        let mut args: Vec<Node> = Vec::new();
                        match self.parse_expr() {
                            Ok(a) => {
                                args.push(a);
                            },
                            Err(e) => {
                                return Err(e);
                            },
                        }
                        loop
                            invariant
                                self.wf(),
                                self.lexer == old(self).lexer,
                                self.i > old(self).i,
                                args.view().len() >= 1,
                            decreases self.lexer.view().len() - self.i,
                        {
                            match self.peek() {
                                Some(TokenData::Comma) => {
                                    self.nom();
                                    match self.parse_expr() {
                                        Ok(a) => {
                                            args.push(a);
                                        },
                                        Err(e) => {
                                            return Err(e);
                                        },
                                    }
                                },
                                _ => {
                                    break;
                                },
                            }
                        }
                        match self.expect(TokenData::RParen) {
                            Ok(_) => {},
                            Err(e) => {
                                return Err(e);
                            },
                        }
                        Ok(Node::FuncCall(loc, name, args))
                    },
                    _ => Ok(Node::VarAccess(loc, name)),
                }
            },
            Some(TokenData::Int(value)) => {
                let value = *value;
                self.nom();
                Ok(Node::Int(loc, value))
            },
            Some(TokenData::Plus) => {
                self.nom();
                self.parse_bin_op(BinOp::Plus)
            },
            Some(TokenData::Minus) => {
                self.nom();
                self.parse_bin_op(BinOp::Minus)
            },
            Some(TokenData::Mult) => {
                self.nom();
                self.parse_bin_op(BinOp::Mult)
            },
            Some(TokenData::Div) => {
                self.nom();
                self.parse_bin_op(BinOp::Div)
            },
            Some(TokenData::Less) => {
                self.nom();
                self.parse_cmp_op(CmpOp::Less)
            },
            Some(TokenData::EqEq) => {
                self.nom();
                self.parse_cmp_op(CmpOp::Equal)
            },
            Some(TokenData::Greater) => {
                self.nom();
                self.parse_cmp_op(CmpOp::Greater)
            },
            Some(TokenData::LtEq) => {
                self.nom();
                self.parse_cmp_op(CmpOp::LtEq)
            },
            Some(TokenData::GtEq) => {
                self.nom();
                self.parse_cmp_op(CmpOp::GtEq)
            },
            Some(TokenData::Buf) => {
                self.nom();
                match self.peek() {
                    Some(TokenData::Int(size)) => {
                        let size = *size;
                        self.nom();
                        Ok(Node::Buf(loc, size))
                    },
                    _ => Err(
                        ParseError::Error(loc, "Expected integer literal".to_owned()),
                    ),
                }
            },
            Some(TokenData::Bang) => {
                self.nom();
                let inner = match self.parse_expr() {
                    Ok(v) => v,
                    Err(e) => {
                        return Err(e);
                    },
                };
                Ok(Node::PtrAccess(loc, Box::new(inner)))
            },
            Some(TokenData::Amp) => {
                self.nom();
                let name = match self.parse_ident() {
                    Ok(v) => v,
                    Err(e) => {
                        return Err(e);
                    },
                };
                Ok(Node::VarAddr(loc, name))
            },
            _ => Err(ParseError::Error(loc, "Expected expression".to_owned())),
        }
    }

    /// Parse the two operands of an arithmetic operator.
    fn parse_bin_op(&mut self, op: BinOp) -> (r: ParseResult<Node>)
        requires
            old(self).wf(),
        ensures
            final(self).wf(),
            final(self).lexer == old(self).lexer,
            final(self).i >= old(self).i,
            r is Ok ==> final(self).i > old(self).i,
            r matches Err(e) ==> e is Error,
            r matches Ok(n) ==> n matches Node::BinOp(_, o, _, _) && o == op,
        decreases old(self).lexer.view().len() - old(self).i, 2nat,
    {
        let loc = self.loc();
        let a = match self.parse_expr() {
            Ok(v) => v,
            Err(e) => {
                return Err(e);
            },
        };
        let b = match self.parse_expr() {
            Ok(v) => v,
            Err(e) => {
                return Err(e);
            },
        };
        Ok(Node::BinOp(loc, op, Box::new(a), Box::new(b)))
    }

    /// Parse the two operands of a comparison operator.
    fn parse_cmp_op(&mut self, op: CmpOp) -> (r: ParseResult<Node>)
        requires
            old(self).wf(),
        ensures
            final(self).wf(),
            final(self).lexer == old(self).lexer,
            final(self).i >= old(self).i,
            r is Ok ==> final(self).i > old(self).i,
            r matches Err(e) ==> e is Error,
            r matches Ok(n) ==> n matches Node::CmpOp(_, o, _, _) && o == op,
        decreases old(self).lexer.view().len() - old(self).i, 2nat,
    {
        let loc = self.loc();
        let a = match self.parse_expr() {
            Ok(v) => v,
            Err(e) => {
                return Err(e);
            },
        };
        let b = match self.parse_expr() {
            Ok(v) => v,
            Err(e) => {
                return Err(e);
            },
        };
        Ok(Node::CmpOp(loc, op, Box::new(a), Box::new(b)))
    }
}

/// The display name of a token, for diagnostics.
fn token_name(t: &TokenData) -> &'static str {
    match t {
        TokenData::Name(_) => "a name",
        TokenData::LParen => "'('",
        TokenData::RParen => "')'",
        TokenData::StrLit(_) => "a string literal",
        TokenData::Semicolon => "';'",
        TokenData::Let => "'let'",
        TokenData::Equals => "'='",
        TokenData::Int(_) => "an integer literal",
        TokenData::Plus => "'+'",
        TokenData::Minus => "'-'",
        TokenData::Mult => "'*'",
        TokenData::Div => "'/'",
        TokenData::Less => "'<'",
        TokenData::EqEq => "'=='",
        TokenData::Greater => "'>'",
        TokenData::LtEq => "'<='",
        TokenData::GtEq => "'>='",
        TokenData::If => "'if'",
        TokenData::LCurly => "'{'",
        TokenData::RCurly => "'}'",
        TokenData::Else => "'else'",
        TokenData::Unless => "'unless'",
        TokenData::While => "'while'",
        TokenData::Comma => "','",
        TokenData::Fun => "'fun'",
        TokenData::Buf => "'buf'",
        TokenData::Bang => "'!'",
        TokenData::Amp => "'&'",
        TokenData::Return => "'return'",
    }
}

/// Do two tokens match, payloads included?
#[verifier::rlimit(100)]
fn token_matches(a: &TokenData, b: &TokenData) -> (r: bool)
    ensures
        r == (a.view() == b.view()),
{
    match (a, b) {
        (TokenData::Name(x), TokenData::Name(y)) => *x == *y,
        (TokenData::StrLit(x), TokenData::StrLit(y)) => *x == *y,
        (TokenData::Int(x), TokenData::Int(y)) => *x == *y,
        (TokenData::LParen, TokenData::LParen) => true,
        (TokenData::RParen, TokenData::RParen) => true,
        (TokenData::Semicolon, TokenData::Semicolon) => true,
        (TokenData::Let, TokenData::Let) => true,
        (TokenData::Equals, TokenData::Equals) => true,
        (TokenData::Plus, TokenData::Plus) => true,
        (TokenData::Minus, TokenData::Minus) => true,
        (TokenData::Mult, TokenData::Mult) => true,
        (TokenData::Div, TokenData::Div) => true,
        (TokenData::Less, TokenData::Less) => true,
        (TokenData::EqEq, TokenData::EqEq) => true,
        (TokenData::Greater, TokenData::Greater) => true,
        (TokenData::LtEq, TokenData::LtEq) => true,
        (TokenData::GtEq, TokenData::GtEq) => true,
        (TokenData::If, TokenData::If) => true,
        (TokenData::LCurly, TokenData::LCurly) => true,
        (TokenData::RCurly, TokenData::RCurly) => true,
        (TokenData::Else, TokenData::Else) => true,
        (TokenData::Unless, TokenData::Unless) => true,
        (TokenData::While, TokenData::While) => true,
        (TokenData::Comma, TokenData::Comma) => true,
        (TokenData::Fun, TokenData::Fun) => true,
        (TokenData::Buf, TokenData::Buf) => true,
        (TokenData::Bang, TokenData::Bang) => true,
        (TokenData::Amp, TokenData::Amp) => true,
        (TokenData::Return, TokenData::Return) => true,
        _ => false,
    }
}


} // verus!
