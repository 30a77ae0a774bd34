//! Statements and blocks.
use vstd::prelude::*;

use super::chunk::{Parser, MAX_DEPTH};
use crate::ast::{expr_ids_below, stat_kind_closed, Attribute, BlockId, ExprId, ExprKind, StatId, StatKind, VarName};
use crate::error::{Error, ErrorKind};
use crate::near::near_of;
use crate::token::{Token, TokenKind};

verus! {

/// `global`, a name unless the token after it makes it a declaration.
pub open spec fn global_word() -> Seq<u8> {
    seq![0x67u8, 0x6c, 0x6f, 0x62, 0x61, 0x6c]
}

/// The attribute `const`.
pub open spec fn const_word() -> Seq<u8> {
    seq![0x63u8, 0x6f, 0x6e, 0x73, 0x74]
}

/// The attribute `close`.
pub open spec fn close_word() -> Seq<u8> {
    seq![0x63u8, 0x6c, 0x6f, 0x73, 0x65]
}

/// The tokens that close a block without being part of it.
pub open spec fn closes_block(kind: TokenKind) -> bool {
    kind is Eof || kind is End || kind is Else || kind is Elseif || kind is Until
}

/// What may follow `global` in a declaration: a name, `function`, an attribute or `*`.
pub open spec fn starts_global_declaration(kind: TokenKind) -> bool {
    kind is Name || kind is Function || kind == TokenKind::Byte(0x3c) || kind == TokenKind::Byte(0x2a)
}

/// The name `global`.
pub open spec fn is_global_name(kind: TokenKind) -> bool {
    kind matches TokenKind::Name(name) && name@ == global_word()
}

/// The token read ahead is one that makes `global` a declaration.
pub open spec fn declaration_follows(ahead: Option<Token>) -> bool {
    ahead matches Some(next) && starts_global_declaration(next.kind)
}

/// Whether the expression kind can be assigned to: a name or an index.
pub open spec fn assignable(kind: ExprKind) -> bool {
    kind is Name || kind is Index
}

fn spells_global(name: &[u8]) -> (r: bool)
    ensures
        r == (name@ == global_word()),
{
    let r = name.len() == 6 && name[0] == 0x67 && name[1] == 0x6c && name[2] == 0x6f && name[3] == 0x62
        && name[4] == 0x61 && name[5] == 0x6c;
    proof {
        if r {
            assert(name@ =~= global_word());
        }
    }
    r
}

fn spells_const(name: &[u8]) -> (r: bool)
    ensures
        r == (name@ == const_word()),
{
    let r = name.len() == 5 && name[0] == 0x63 && name[1] == 0x6f && name[2] == 0x6e && name[3] == 0x73
        && name[4] == 0x74;
    proof {
        if r {
            assert(name@ =~= const_word());
        }
    }
    r
}

fn spells_close(name: &[u8]) -> (r: bool)
    ensures
        r == (name@ == close_word()),
{
    let r = name.len() == 5 && name[0] == 0x63 && name[1] == 0x6c && name[2] == 0x6f && name[3] == 0x73
        && name[4] == 0x65;
    proof {
        if r {
            assert(name@ =~= close_word());
        }
    }
    r
}

impl<'a> Parser<'a> {
    /// The chunk's own block, which has to reach the end of the source.
    pub(crate) fn chunk(&mut self) -> (r: Result<BlockId, Error>)
        requires
            old(self).inv(),
            old(self).budget() >= 1,
        ensures
            r is Ok ==> final(self).stepped(*old(self)),
            r matches Ok(id) ==> id.id() < final(self).builder.blocks().len(),
            r is Ok ==> final(self).current.kind is Eof,
            old(self).current.kind is Eof && old(self).depth < MAX_DEPTH ==> (r matches Ok(id)
                && final(self).builder.blocks()[id.id()].stats@.len() == 0),
            old(self).current.kind is Break && old(self).loops == 0 && old(self).depth < MAX_DEPTH ==> (r matches Err(e)
                && e.kind == ErrorKind::BreakOutsideLoop && e.at == old(self).current.span.end && e.near@ == near_of(
                old(self).current.kind,
                old(self).source@.subrange(old(self).current.span.start as int, old(self).current.span.end as int),
            )),
    {
        let body = self.block()?;
        if !matches!(self.current.kind, TokenKind::Eof) {
            let expected = TokenKind::Eof.describe();
            return Err(self.syntax(ErrorKind::Expected(expected)));
        }
        Ok(body)
    }

    /// `block -> { stat } [retstat]`
    pub(crate) fn block(&mut self) -> (r: Result<BlockId, Error>)
        requires
            old(self).inv(),
            old(self).budget() >= 1,
        ensures
            r is Ok ==> final(self).stepped(*old(self)) && final(self).budget() >= old(self).budget() - 1,
            r matches Ok(id) ==> id.id() < final(self).builder.blocks().len(),
            old(self).current.kind is Break && old(self).loops == 0 && old(self).depth < MAX_DEPTH ==> (r matches Err(e)
                && e.kind == ErrorKind::BreakOutsideLoop && e.at == old(self).current.span.end && e.near@ == near_of(
                old(self).current.kind,
                old(self).source@.subrange(old(self).current.span.start as int, old(self).current.span.end as int),
            )),
            old(self).current.kind is Eof && old(self).depth < MAX_DEPTH ==> (r matches Ok(id) && final(self).current
                == old(self).current && final(self).builder.blocks()[id.id()].stats@.len() == 0),
        decreases MAX_DEPTH - old(self).depth, 0nat,
    {
        self.descend()?;
        let ghost entered = *self;
        // Nothing but the end of input is an empty block.
        let ghost opens_at_end = old(self).current.kind is Eof;
        // A block that starts with `break` outside any loop is refused at that `break`.
        let ghost opens_with_break = old(self).current.kind is Break && old(self).loops == 0;
        let ghost mut fresh = true;
        let start = self.current.span.start;
        let mut stats: Vec<StatId> = Vec::new();
        loop
            invariant_except_break
                fresh ==> *self == entered,
                fresh ==> stats@.len() == 0,
                opens_with_break ==> fresh,
                opens_at_end ==> fresh,
            invariant
                self.stepped(entered),
                self.budget() >= entered.budget(),
                entered.depth == old(self).depth + 1,
                entered.budget() == old(self).budget(),
                entered.current == old(self).current,
                entered.loops == old(self).loops,
                entered.source == old(self).source,
                opens_with_break == (old(self).current.kind is Break && old(self).loops == 0),
                opens_at_end == (old(self).current.kind is Eof),
                forall|i: int| 0 <= i < stats@.len() ==> #[trigger] stats@[i].id() < self.builder.stats().len(),
            ensures
                self.stepped(entered),
                self.budget() >= entered.budget(),
                !opens_with_break,
                opens_at_end ==> *self == entered && stats@.len() == 0,
                forall|i: int| 0 <= i < stats@.len() ==> #[trigger] stats@[i].id() < self.builder.stats().len(),
            decreases self.source@.len() - self.last_end,
        {
            if self.block_follows() {
                break;
            }
            // A return statement closes the block it appears in.
            if matches!(self.current.kind, TokenKind::Return) {
                proof {
                    if opens_with_break || opens_at_end {
                        assert(self.current == old(self).current);
                        assert(false);
                    }
                }
                let stat = self.return_stat()?;
                stats.push(stat);
                break;
            }
            let ghost before = *self;
            if let Some(stat) = self.statement()? {
                stats.push(stat);
            }
            proof {
                assert(self.last_end > before.last_end);
                fresh = false;
            }
        }
        let span = self.span_from(start);
        let id = self.builder.block(stats, span);
        self.ascend();
        Ok(id)
    }

    /// A loop body.
    fn loop_block(&mut self) -> (r: Result<BlockId, Error>)
        requires
            old(self).inv(),
            old(self).budget() >= 1,
        ensures
            r is Ok ==> final(self).stepped(*old(self)) && final(self).budget() >= old(self).budget() - 1,
            r matches Ok(id) ==> id.id() < final(self).builder.blocks().len(),
        decreases MAX_DEPTH - old(self).depth, 1nat,
    {
        let outer = self.loops;
        self.loops = if outer < u32::MAX {
            outer + 1
        } else {
            outer
        };
        let body = self.block();
        self.loops = outer;
        body
    }

    /// Whether the current token closes a block without being part of it.
    pub(crate) fn block_follows(&self) -> (follows: bool)
        ensures
            follows == closes_block(self.current.kind),
    {
        matches!(
            self.current.kind,
            TokenKind::Eof | TokenKind::End | TokenKind::Else | TokenKind::Elseif | TokenKind::Until
        )
    }

    /// One statement, or nothing at all when it was an empty `;`.
    fn statement(&mut self) -> (r: Result<Option<StatId>, Error>)
        requires
            old(self).inv(),
            !closes_block(old(self).current.kind),
        ensures
            r is Ok ==> final(self).stepped(*old(self)) && final(self).budget() >= old(self).budget() + 1,
            r matches Ok(Some(id)) ==> id.id() < final(self).builder.stats().len(),
            old(self).current.kind is Break && old(self).loops == 0 ==> (r matches Err(e) && e.kind
                == ErrorKind::BreakOutsideLoop && e.at == old(self).current.span.end && e.near@ == near_of(
                old(self).current.kind,
                old(self).source@.subrange(old(self).current.span.start as int, old(self).current.span.end as int),
            )),
            old(self).current.kind is Break && old(self).loops > 0 ==> (r matches Ok(found) ==> (found matches Some(id)
                && final(self).builder.stats()[id.id()].kind is Break)),
        decreases MAX_DEPTH - old(self).depth, 7nat,
    {
        let start = self.current.span.start;
        let kind = if self.at_global_declaration()? {
            self.global_stat()?
        } else {
            match self.current.kind {
                TokenKind::Byte(0x3b) => {
                    self.advance()?;
                    return Ok(None);
                },
                TokenKind::If => self.if_stat(start)?,
                TokenKind::While => {
                    self.advance()?;
                    let condition = self.expr()?;
                    self.expect(TokenKind::Do)?;
                    let body = self.loop_block()?;
                    self.expect_match(TokenKind::End, TokenKind::While, start)?;
                    StatKind::While { condition, body }
                },
                TokenKind::Do => {
                    self.advance()?;
                    let body = self.block()?;
                    self.expect_match(TokenKind::End, TokenKind::Do, start)?;
                    StatKind::Do(body)
                },
                TokenKind::For => self.for_stat(start)?,
                TokenKind::Repeat => {
                    self.advance()?;
                    let body = self.loop_block()?;
                    self.expect_match(TokenKind::Until, TokenKind::Repeat, start)?;
                    let condition = self.expr()?;
                    StatKind::Repeat { body, condition }
                },
                TokenKind::Local => self.local_stat()?,
                TokenKind::DbColon => {
                    self.advance()?;
                    let name = self.name()?;
                    self.expect(TokenKind::DbColon)?;
                    StatKind::Label(name)
                },
                TokenKind::Break => {
                    if self.loops == 0 {
                        return Err(self.syntax(ErrorKind::BreakOutsideLoop));
                    }
                    self.advance()?;
                    StatKind::Break
                },
                TokenKind::Goto => {
                    self.advance()?;
                    let label = self.name()?;
                    StatKind::Goto(label)
                },
                TokenKind::Function => self.func_stat()?,
                _ => self.expr_stat()?,
            }
        };
        let span = self.span_from(start);
        Ok(Some(self.builder.stat(kind, span)))
    }

    /// `retstat -> 'return' [explist] [';']`
    fn return_stat(&mut self) -> (r: Result<StatId, Error>)
        requires
            old(self).inv(),
            old(self).current.kind is Return,
        ensures
            r is Ok ==> final(self).stepped(*old(self)) && final(self).budget() >= old(self).budget() + 2,
            r matches Ok(id) ==> id.id() < final(self).builder.stats().len(),
        decreases MAX_DEPTH - old(self).depth, 3nat,
    {
        let start = self.current.span.start;
        self.advance()?;
        let values = if self.block_follows() || self.at_byte(0x3b) {
            Vec::new()
        } else {
            self.expr_list()?
        };
        self.eat_byte(0x3b)?;
        let span = self.span_from(start);
        Ok(self.builder.stat(StatKind::Return(values), span))
    }

    /// `ifstat -> 'if' expr 'then' block { 'elseif' expr 'then' block } ['else' block] 'end'`
    fn if_stat(&mut self, start: u32) -> (r: Result<StatKind<'a>, Error>)
        requires
            old(self).inv(),
            old(self).current.kind is If,
        ensures
            r is Ok ==> final(self).stepped(*old(self)) && final(self).budget() >= old(self).budget() + 2,
            r matches Ok(kind) ==> stat_kind_closed(
                kind,
                final(self).builder.exprs().len() as int,
                final(self).builder.blocks().len() as int,
                final(self).builder.funcs().len() as int,
            ),
        decreases MAX_DEPTH - old(self).depth, 2nat,
    {
        let mut arms: Vec<(ExprId, BlockId)> = Vec::new();
        loop
            invariant_except_break
                self.current.kind is If || self.current.kind is Elseif,
            invariant
                self.stepped(*old(self)),
                self.budget() >= old(self).budget(),
                forall|i: int|
                    0 <= i < arms@.len() ==> #[trigger] arms@[i].0.id() < self.builder.exprs().len() && arms@[i].1.id()
                        < self.builder.blocks().len(),
            ensures
                self.stepped(*old(self)),
                self.budget() >= old(self).budget() + 9,
                forall|i: int|
                    0 <= i < arms@.len() ==> #[trigger] arms@[i].0.id() < self.builder.exprs().len() && arms@[i].1.id()
                        < self.builder.blocks().len(),
            decreases self.source@.len() - self.last_end,
        {
            let ghost before = *self;
            // The first pass consumes `if`, later ones `elseif`.
            self.advance()?;
            let condition = self.expr()?;
            self.expect(TokenKind::Then)?;
            let body = self.block()?;
            let ghost earlier = arms@;
            arms.push((condition, body));
            proof {
                assert forall|i: int|
                    0 <= i < arms@.len() implies #[trigger] arms@[i].0.id() < self.builder.exprs().len() && arms@[i].1.id()
                        < self.builder.blocks().len() by {
                    if i < earlier.len() {
                        assert(arms@[i] == earlier[i]);
                    }
                }
            }
            if !matches!(self.current.kind, TokenKind::Elseif) {
                break;
            }
            proof {
                assert(self.last_end > before.last_end);
            }
        }
        let otherwise = if self.eat(TokenKind::Else)? {
            Some(self.block()?)
        } else {
            None
        };
        self.expect_match(TokenKind::End, TokenKind::If, start)?;
        Ok(StatKind::If { arms, otherwise })
    }

    /// `forstat -> 'for' (NAME '=' exp ',' exp [',' exp] | NAME { ',' NAME } 'in' explist) 'do' block 'end'`
    fn for_stat(&mut self, start: u32) -> (r: Result<StatKind<'a>, Error>)
        requires
            old(self).inv(),
            old(self).current.kind is For,
        ensures
            r is Ok ==> final(self).stepped(*old(self)) && final(self).budget() >= old(self).budget() + 2,
            r matches Ok(kind) ==> stat_kind_closed(
                kind,
                final(self).builder.exprs().len() as int,
                final(self).builder.blocks().len() as int,
                final(self).builder.funcs().len() as int,
            ),
        decreases MAX_DEPTH - old(self).depth, 3nat,
    {
        self.advance()?;
        let first = self.name()?;
        if !self.at_byte(0x3d) && !self.at_byte(0x2c) && !matches!(self.current.kind, TokenKind::In) {
            return Err(self.syntax(ErrorKind::EqualsOrInExpected));
        }
        let kind = if self.eat_byte(0x3d)? {
            let from = self.expr()?;
            self.expect(TokenKind::Byte(0x2c))?;
            let limit = self.expr()?;
            let step = if self.eat_byte(0x2c)? {
                Some(self.expr()?)
            } else {
                None
            };
            self.expect(TokenKind::Do)?;
            let body = self.loop_block()?;
            StatKind::NumericFor { name: first, start: from, limit, step, body }
        } else {
            let mut names: Vec<&'a [u8]> = Vec::new();
            names.push(first);
            loop
                invariant
                    self.stepped(*old(self)),
                    self.budget() >= old(self).budget() + 8,
                decreases self.source@.len() - self.last_end,
            {
                let ghost before = *self;
                if !self.eat_byte(0x2c)? {
                    break;
                }
                let name = self.name()?;
                names.push(name);
                proof {
                    assert(self.last_end > before.last_end);
                }
            }
            self.expect(TokenKind::In)?;
            let exprs = self.expr_list()?;
            self.expect(TokenKind::Do)?;
            let body = self.loop_block()?;
            StatKind::GenericFor { names, exprs, body }
        };
        self.expect_match(TokenKind::End, TokenKind::For, start)?;
        Ok(kind)
    }

    /// `localstat -> 'local' NAME attrib { ',' NAME attrib } ['=' explist]`, or
    /// `'local' 'function' NAME funcbody`
    fn local_stat(&mut self) -> (r: Result<StatKind<'a>, Error>)
        requires
            old(self).inv(),
            old(self).current.kind is Local,
        ensures
            r is Ok ==> final(self).stepped(*old(self)) && final(self).budget() >= old(self).budget() + 2,
            r matches Ok(StatKind::Local { names, .. }) ==> forall|i: int, j: int|
                0 <= i < j < names@.len() && names@[i].attribute == Some(Attribute::Close) ==> names@[j].attribute
                    != Some(Attribute::Close),
            r matches Ok(kind) ==> stat_kind_closed(
                kind,
                final(self).builder.exprs().len() as int,
                final(self).builder.blocks().len() as int,
                final(self).builder.funcs().len() as int,
            ),
        decreases MAX_DEPTH - old(self).depth, 3nat,
    {
        self.advance()?;
        if matches!(self.current.kind, TokenKind::Function) {
            let start = self.current.span.start;
            self.advance()?;
            let name = self.name()?;
            let func = self.func_body(start, false)?;
            return Ok(StatKind::LocalFunction { name, func });
        }
        let default = self.attribute(None)?;
        let mut names: Vec<VarName<'a>> = Vec::new();
        let mut closing = false;
        loop
            invariant
                self.stepped(*old(self)),
                self.budget() >= old(self).budget() + 4,
                closing == exists|i: int| 0 <= i < names@.len() && names@[i].attribute == Some(Attribute::Close),
                forall|i: int, j: int|
                    0 <= i < j < names@.len() && names@[i].attribute == Some(Attribute::Close) ==> names@[j].attribute
                        != Some(Attribute::Close),
            ensures
                self.stepped(*old(self)),
                self.budget() >= old(self).budget() + 8,
                forall|i: int, j: int|
                    0 <= i < j < names@.len() && names@[i].attribute == Some(Attribute::Close) ==> names@[j].attribute
                        != Some(Attribute::Close),
            decreases self.source@.len() - self.last_end,
        {
            let ghost before = *self;
            let name = self.var_name(default)?;
            if name.attribute == Some(Attribute::Close) {
                if closing {
                    return Err(self.semantic(ErrorKind::MultipleToBeClosed));
                }
                closing = true;
            }
            let ghost old_names = names@;
            names.push(name);
            proof {
                assert forall|i: int, j: int|
                    0 <= i < j < names@.len() && names@[i].attribute == Some(Attribute::Close) implies names@[j].attribute
                        != Some(Attribute::Close) by {
                    if j < old_names.len() {
                        assert(names@[i] == old_names[i] && names@[j] == old_names[j]);
                    } else {
                        assert(names@[i] == old_names[i]);
                    }
                }
                if names@[names@.len() - 1].attribute == Some(Attribute::Close) {
                    assert(exists|i: int| 0 <= i < names@.len() && names@[i].attribute == Some(Attribute::Close));
                } else {
                    if exists|i: int| 0 <= i < names@.len() && names@[i].attribute == Some(Attribute::Close) {
                        let i = choose|i: int| 0 <= i < names@.len() && names@[i].attribute == Some(Attribute::Close);
                        assert(names@[i] == old_names[i]);
                    }
                    if exists|i: int| 0 <= i < old_names.len() && old_names[i].attribute == Some(Attribute::Close) {
                        let i = choose|i: int| 0 <= i < old_names.len() && old_names[i].attribute == Some(Attribute::Close);
                        assert(names@[i] == old_names[i]);
                    }
                }
            }
            if !self.eat_byte(0x2c)? {
                break;
            }
            proof {
                assert(self.last_end > before.last_end);
            }
        }
        let values = if self.eat_byte(0x3d)? {
            self.expr_list()?
        } else {
            Vec::new()
        };
        Ok(StatKind::Local { names, values })
    }

    /// `exprstat -> suffixedexp { ',' suffixedexp } '=' explist | suffixedexp`
    fn expr_stat(&mut self) -> (r: Result<StatKind<'a>, Error>)
        requires
            old(self).inv(),
        ensures
            r is Ok ==> final(self).stepped(*old(self)) && final(self).budget() >= old(self).budget() + 2,
            r matches Ok(StatKind::Expr(call)) ==> call.id() < final(self).builder.exprs().len() && (
                final(self).builder.exprs()[call.id()].kind is Call || final(self).builder.exprs()[call.id()].kind is Method),
            r matches Ok(StatKind::Assign { targets, values }) ==> targets@.len() >= 1 && values@.len() >= 1
                && expr_ids_below(targets@, final(self).builder.exprs().len() as int) && expr_ids_below(
                values@,
                final(self).builder.exprs().len() as int,
            ),
            r is Ok ==> (r matches Ok(StatKind::Expr(_)) || r matches Ok(StatKind::Assign { .. })),
            r matches Ok(kind) ==> stat_kind_closed(
                kind,
                final(self).builder.exprs().len() as int,
                final(self).builder.blocks().len() as int,
                final(self).builder.funcs().len() as int,
            ),
        decreases MAX_DEPTH - old(self).depth, 6nat,
    {
        let first = self.suffixed_expr()?;
        if self.at_byte(0x3d) || self.at_byte(0x2c) {
            self.check_assignable(first)?;
            let mut targets: Vec<ExprId> = Vec::new();
            targets.push(first);
            loop
                invariant
                    self.stepped(*old(self)),
                    self.budget() >= old(self).budget() + 2,
                    targets@.len() >= 1,
                    expr_ids_below(targets@, self.builder.exprs().len() as int),
                decreases self.source@.len() - self.last_end,
            {
                let ghost before = *self;
                if !self.eat_byte(0x2c)? {
                    break;
                }
                let target = self.suffixed_expr()?;
                self.check_assignable(target)?;
                targets.push(target);
                proof {
                    assert(self.last_end > before.last_end);
                }
            }
            self.expect(TokenKind::Byte(0x3d))?;
            let values = self.expr_list()?;
            return Ok(StatKind::Assign { targets, values });
        }
        // Everything else that is not a call is an expression with nowhere to go.
        if !matches!(self.builder.kind_of(first), ExprKind::Call { .. } | ExprKind::Method { .. }) {
            return Err(self.syntax(ErrorKind::SyntaxError));
        }
        Ok(StatKind::Expr(first))
    }

    /// Only a name or an index can be assigned to.
    fn check_assignable(&self, target: ExprId) -> (r: Result<(), Error>)
        requires
            self.inv(),
            target.id() < self.builder.exprs().len(),
        ensures
            r is Ok == assignable(self.builder.exprs()[target.id()].kind),
            r matches Err(e) ==> e.kind == ErrorKind::SyntaxError,
    {
        if matches!(self.builder.kind_of(target), ExprKind::Name(_) | ExprKind::Index { .. }) {
            return Ok(());
        }
        Err(self.syntax(ErrorKind::SyntaxError))
    }

    /// `globalstat -> 'global' ('function' NAME funcbody | attrib ('*' | NAME attrib { ',' NAME attrib } ['=' explist]))`
    fn global_stat(&mut self) -> (r: Result<StatKind<'a>, Error>)
        requires
            old(self).inv(),
            old(self).current.kind is Name,
        ensures
            r is Ok ==> final(self).stepped(*old(self)) && final(self).budget() >= old(self).budget() + 2,
            r matches Ok(StatKind::Global { names, .. }) ==> forall|i: int|
                0 <= i < names@.len() ==> #[trigger] names@[i].attribute != Some(Attribute::Close),
            r matches Ok(StatKind::GlobalAll { attribute }) ==> attribute != Some(Attribute::Close),
            r matches Ok(kind) ==> stat_kind_closed(
                kind,
                final(self).builder.exprs().len() as int,
                final(self).builder.blocks().len() as int,
                final(self).builder.funcs().len() as int,
            ),
        decreases MAX_DEPTH - old(self).depth, 3nat,
    {
        self.advance()?;
        if matches!(self.current.kind, TokenKind::Function) {
            let start = self.current.span.start;
            self.advance()?;
            let name = self.name()?;
            let func = self.func_body(start, false)?;
            return Ok(StatKind::GlobalFunction { name, func });
        }
        let default = self.global_attribute(None)?;
        if self.eat_byte(0x2a)? {
            return Ok(StatKind::GlobalAll { attribute: default });
        }
        let mut names: Vec<VarName<'a>> = Vec::new();
        loop
            invariant
                self.stepped(*old(self)),
                self.budget() >= old(self).budget() + 4,
                default != Some(Attribute::Close),
                forall|i: int| 0 <= i < names@.len() ==> #[trigger] names@[i].attribute != Some(Attribute::Close),
            ensures
                self.stepped(*old(self)),
                self.budget() >= old(self).budget() + 8,
                forall|i: int| 0 <= i < names@.len() ==> #[trigger] names@[i].attribute != Some(Attribute::Close),
            decreases self.source@.len() - self.last_end,
        {
            let ghost before = *self;
            let start = self.current.span.start;
            let name = self.name()?;
            let attribute = self.global_attribute(default)?;
            let span = self.span_from(start);
            names.push(VarName { name, attribute, span });
            if !self.eat_byte(0x2c)? {
                break;
            }
            proof {
                assert(self.last_end > before.last_end);
            }
        }
        let values = if self.eat_byte(0x3d)? {
            self.expr_list()?
        } else {
            Vec::new()
        };
        Ok(StatKind::Global { names, values })
    }

    /// `global` is an ordinary name until the token after it says otherwise.
    fn at_global_declaration(&mut self) -> (r: Result<bool, Error>)
        requires
            old(self).inv(),
        ensures
            r is Ok ==> final(self).stepped(*old(self)) && final(self).same_nodes(*old(self)),
            r is Ok ==> final(self).current == old(self).current && final(self).last_end == old(self).last_end,
            r matches Ok(at) ==> at == (is_global_name(old(self).current.kind) && declaration_follows(final(self).ahead)),
            !is_global_name(old(self).current.kind) ==> r == Ok::<bool, Error>(false),
    {
        let is_global = match self.current_name() {
            Some(name) => spells_global(name),
            None => false,
        };
        if !is_global {
            return Ok(false);
        }
        self.peek()?;
        Ok(
            match &self.ahead {
                Some(next) => matches!(
                    next.kind,
                    TokenKind::Name(_) | TokenKind::Function | TokenKind::Byte(0x3c) | TokenKind::Byte(0x2a)
                ),
                None => false,
            },
        )
    }

    /// A name being declared, with its attribute.
    fn var_name(&mut self, default: Option<Attribute>) -> (r: Result<VarName<'a>, Error>)
        requires
            old(self).inv(),
        ensures
            r is Ok ==> final(self).stepped(*old(self)) && final(self).same_nodes(*old(self)) && final(self).budget()
                >= old(self).budget() + 4,
            r matches Ok(v) ==> old(self).current.kind == TokenKind::Name(v.name) && v.span.start == old(self).current.span.start,
            !(old(self).current.kind is Name) || !old(self).can_step() ==> r is Err,
            r matches Ok(v) ==> v.attribute == default || v.attribute == Some(Attribute::Const) || v.attribute == Some(Attribute::Close),
    {
        let start = self.current.span.start;
        let name = self.name()?;
        let attribute = self.attribute(default)?;
        let span = self.span_from(start);
        Ok(VarName { name, attribute, span })
    }

    /// `attrib -> ['<' NAME '>']`, or `default` when there is none.
    fn attribute(&mut self, default: Option<Attribute>) -> (r: Result<Option<Attribute>, Error>)
        requires
            old(self).inv(),
        ensures
            r is Ok ==> final(self).stepped(*old(self)) && final(self).same_nodes(*old(self)) && final(self).budget()
                >= old(self).budget(),
            old(self).current.kind != TokenKind::Byte(0x3c) ==> r == Ok::<Option<Attribute>, Error>(default),
            r matches Ok(Some(Attribute::Close)) ==> default == Some(Attribute::Close)
                || old(self).current.kind == TokenKind::Byte(0x3c),
            old(self).current.kind == TokenKind::Byte(0x3c) ==> (r matches Ok(a) ==> a == Some(Attribute::Const) || a
                == Some(Attribute::Close)),
            old(self).current.kind == TokenKind::Byte(0x3c) && !old(self).can_step() ==> r is Err,
    {
        if !self.eat_byte(0x3c)? {
            return Ok(default);
        }
        let name = self.name()?;
        self.expect(TokenKind::Byte(0x3e))?;
        if spells_const(name) {
            Ok(Some(Attribute::Const))
        } else if spells_close(name) {
            Ok(Some(Attribute::Close))
        } else {
            Err(self.semantic(ErrorKind::UnknownAttribute(vstd::slice::slice_to_vec(name))))
        }
    }

    /// The same, except that a global can never be to-be-closed.
    fn global_attribute(&mut self, default: Option<Attribute>) -> (r: Result<Option<Attribute>, Error>)
        requires
            old(self).inv(),
        ensures
            r is Ok ==> final(self).stepped(*old(self)) && final(self).same_nodes(*old(self)) && final(self).budget()
                >= old(self).budget(),
            r matches Ok(attribute) ==> attribute != Some(Attribute::Close),
            old(self).current.kind != TokenKind::Byte(0x3c) && default != Some(Attribute::Close) ==> r
                == Ok::<Option<Attribute>, Error>(default),
    {
        let attribute = self.attribute(default)?;
        if attribute == Some(Attribute::Close) {
            return Err(self.semantic(ErrorKind::GlobalToBeClosed));
        }
        Ok(attribute)
    }
}

} // verus!
