//! Expressions, and the priority ladder that shapes them.
use vstd::prelude::*;

use super::chunk::{Parser, MAX_DEPTH};
use crate::ast::{expr_ids_below, field_closed, ExprId, ExprKind, Field};
use crate::error::{Error, ErrorKind};
use crate::near::near_of;
use crate::operator::{binary_op, binary_priority, unary_op, UNARY_PRIORITY};
use crate::token::TokenKind;

verus! {

impl<'a> Parser<'a> {
    pub(crate) fn expr(&mut self) -> (r: Result<ExprId, Error>)
        requires
            old(self).inv(),
        ensures
            r is Ok ==> final(self).stepped(*old(self)) && final(self).budget() >= old(self).budget() + 2,
            r matches Ok(id) ==> id.id() < final(self).builder.exprs().len(),
        decreases MAX_DEPTH - old(self).depth, 1nat,
    {
        self.subexpr(0)
    }

    /// `explist -> expr { ',' expr }`
    pub(crate) fn expr_list(&mut self) -> (r: Result<Vec<ExprId>, Error>)
        requires
            old(self).inv(),
        ensures
            r is Ok ==> final(self).stepped(*old(self)) && final(self).budget() >= old(self).budget() + 2,
            r matches Ok(list) ==> list@.len() >= 1 && expr_ids_below(list@, final(self).builder.exprs().len() as int),
        decreases MAX_DEPTH - old(self).depth, 2nat,
    {
        let first = self.expr()?;
        let mut list: Vec<ExprId> = Vec::new();
        list.push(first);
        loop
            invariant
                self.stepped(*old(self)),
                self.budget() >= old(self).budget() + 2,
                list@.len() >= 1,
                expr_ids_below(list@, self.builder.exprs().len() as int),
            decreases self.source@.len() - self.last_end,
        {
            let ghost before = *self;
            if !self.eat_byte(0x2c)? {
                break;
            }
            let next = self.expr()?;
            list.push(next);
            proof {
                assert(self.last_end > before.last_end);
            }
        }
        Ok(list)
    }

    /// Takes operators binding tighter than `limit`.
    pub(crate) fn subexpr(&mut self, limit: u8) -> (r: Result<ExprId, Error>)
        requires
            old(self).inv(),
        ensures
            r is Ok ==> final(self).stepped(*old(self)) && final(self).budget() >= old(self).budget() + 2,
            r matches Ok(id) ==> id.id() < final(self).builder.exprs().len(),
        decreases MAX_DEPTH - old(self).depth, 0nat,
    {
        self.descend()?;
        let ghost entered = *self;
        let start = self.current.span.start;
        let mut left = match unary_op(&self.current.kind) {
            Some(op) => {
                self.advance()?;
                let operand = self.subexpr(UNARY_PRIORITY)?;
                let span = self.span_from(start);
                self.builder.expr(ExprKind::Unary { op, operand }, span)
            },
            None => self.simple_expr()?,
        };
        loop
            invariant
                self.stepped(entered),
                self.budget() >= entered.budget() + 2,
                left.id() < self.builder.exprs().len(),
                entered.depth == old(self).depth + 1,
            decreases self.source@.len() - self.last_end,
        {
            let op = match binary_op(&self.current.kind) {
                Some(op) => op,
                None => break,
            };
            let (left_priority, right_priority) = binary_priority(op);
            if left_priority <= limit {
                break;
            }
            self.advance()?;
            let right = self.subexpr(right_priority)?;
            let span = self.span_from(start);
            left = self.builder.expr(ExprKind::Binary { op, left, right }, span);
        }
        self.ascend();
        Ok(left)
    }

    fn simple_expr(&mut self) -> (r: Result<ExprId, Error>)
        requires
            old(self).inv(),
        ensures
            r is Ok ==> final(self).stepped(*old(self)) && final(self).budget() >= old(self).budget() + 2,
            r matches Ok(id) ==> id.id() < final(self).builder.exprs().len(),
            old(self).current.kind is Dots && !old(self).varargs ==> (r matches Err(e) && e.kind
                == ErrorKind::VarargsOutsideVarargFunction && e.at == old(self).current.span.end && e.near@ == near_of(
                old(self).current.kind,
                old(self).source@.subrange(old(self).current.span.start as int, old(self).current.span.end as int),
            )),
            old(self).current.kind is Dots && old(self).varargs ==> (r matches Ok(id) ==> final(self).builder.exprs()[id.id()].kind is Vararg),
        decreases MAX_DEPTH - old(self).depth, 6nat,
    {
        let start = self.current.span.start;
        let kind = match &self.current.kind {
            TokenKind::Nil => ExprKind::Nil,
            TokenKind::True => ExprKind::True,
            TokenKind::False => ExprKind::False,
            TokenKind::Int(value) => ExprKind::Int(*value),
            TokenKind::Float(value) => ExprKind::Float(*value),
            TokenKind::Str(bytes) => ExprKind::Str(vstd::slice::slice_to_vec(bytes.as_slice())),
            TokenKind::Dots => {
                if !self.varargs {
                    return Err(self.syntax(ErrorKind::VarargsOutsideVarargFunction));
                }
                ExprKind::Vararg
            },
            TokenKind::Byte(0x7b) => return self.table(),
            TokenKind::Function => return self.func_expr(start),
            _ => return self.suffixed_expr(),
        };
        self.advance()?;
        let span = self.span_from(start);
        Ok(self.builder.expr(kind, span))
    }

    /// `primaryexp -> NAME | '(' expr ')'`
    fn primary_expr(&mut self) -> (r: Result<ExprId, Error>)
        requires
            old(self).inv(),
        ensures
            r is Ok ==> final(self).stepped(*old(self)) && final(self).budget() >= old(self).budget() + 2,
            r matches Ok(id) ==> id.id() < final(self).builder.exprs().len(),
        decreases MAX_DEPTH - old(self).depth, 2nat,
    {
        let start = self.current.span.start;
        if let Some(name) = self.current_name() {
            self.advance()?;
            let span = self.span_from(start);
            return Ok(self.builder.expr(ExprKind::Name(name), span));
        }
        if self.at_byte(0x28) {
            let open_at = self.current.span.start;
            self.advance()?;
            let inner = self.expr()?;
            self.expect_match(TokenKind::Byte(0x29), TokenKind::Byte(0x28), open_at)?;
            let span = self.span_from(start);
            return Ok(self.builder.expr(ExprKind::Paren(inner), span));
        }
        Err(self.syntax(ErrorKind::UnexpectedSymbol))
    }

    /// `suffixedexp -> primaryexp { '.' NAME | '[' expr ']' | ':' NAME args | args }`
    pub(crate) fn suffixed_expr(&mut self) -> (r: Result<ExprId, Error>)
        requires
            old(self).inv(),
        ensures
            r is Ok ==> final(self).stepped(*old(self)) && final(self).budget() >= old(self).budget() + 2,
            r matches Ok(id) ==> id.id() < final(self).builder.exprs().len(),
        decreases MAX_DEPTH - old(self).depth, 5nat,
    {
        let start = self.current.span.start;
        let mut left = self.primary_expr()?;
        loop
            invariant
                self.stepped(*old(self)),
                self.budget() >= old(self).budget() + 2,
                left.id() < self.builder.exprs().len(),
            decreases self.source@.len() - self.last_end,
        {
            let ghost before = *self;
            left = match self.current.kind {
                TokenKind::Byte(0x2e) => {
                    self.advance()?;
                    let key = self.name_as_string()?;
                    let span = self.span_from(start);
                    self.builder.expr(ExprKind::Index { object: left, key }, span)
                },
                TokenKind::Byte(0x5b) => {
                    self.advance()?;
                    let key = self.expr()?;
                    self.expect(TokenKind::Byte(0x5d))?;
                    let span = self.span_from(start);
                    self.builder.expr(ExprKind::Index { object: left, key }, span)
                },
                TokenKind::Byte(0x3a) => {
                    self.advance()?;
                    let name = self.name()?;
                    let args = self.args()?;
                    let span = self.span_from(start);
                    self.builder.expr(ExprKind::Method { object: left, name, args }, span)
                },
                TokenKind::Byte(0x28) | TokenKind::Byte(0x7b) | TokenKind::Str(_) => {
                    let args = self.args()?;
                    let span = self.span_from(start);
                    self.builder.expr(ExprKind::Call { callee: left, args }, span)
                },
                _ => return Ok(left),
            };
            proof {
                assert(self.last_end > before.last_end);
            }
        }
    }

    /// `args -> '(' [explist] ')' | tablector | STRING`
    fn args(&mut self) -> (r: Result<Vec<ExprId>, Error>)
        requires
            old(self).inv(),
        ensures
            r is Ok ==> final(self).stepped(*old(self)) && final(self).budget() >= old(self).budget() + 3,
            r matches Ok(list) ==> expr_ids_below(list@, final(self).builder.exprs().len() as int),
        decreases MAX_DEPTH - old(self).depth, 4nat,
    {
        if self.at_byte(0x28) {
            let open_at = self.current.span.start;
            self.advance()?;
            let list = if self.at_byte(0x29) {
                Vec::new()
            } else {
                self.expr_list()?
            };
            self.expect_match(TokenKind::Byte(0x29), TokenKind::Byte(0x28), open_at)?;
            return Ok(list);
        }
        if self.at_byte(0x7b) {
            let table = self.table()?;
            let mut list: Vec<ExprId> = Vec::new();
            list.push(table);
            return Ok(list);
        }
        let literal = match &self.current.kind {
            TokenKind::Str(bytes) => vstd::slice::slice_to_vec(bytes.as_slice()),
            _ => return Err(self.syntax(ErrorKind::FunctionArgumentsExpected)),
        };
        let span = self.current.span;
        self.advance()?;
        let id = self.builder.expr(ExprKind::Str(literal), span);
        let mut list: Vec<ExprId> = Vec::new();
        list.push(id);
        Ok(list)
    }

    /// `tablector -> '{' [field { sep field } [sep]] '}'`, where `sep` is `,` or `;`
    fn table(&mut self) -> (r: Result<ExprId, Error>)
        requires
            old(self).inv(),
            old(self).current.kind == TokenKind::Byte(0x7b),
        ensures
            r is Ok ==> final(self).stepped(*old(self)) && final(self).budget() >= old(self).budget() + 3,
            r matches Ok(id) ==> id.id() < final(self).builder.exprs().len() && final(self).builder.exprs()[id.id()].kind is Table,
        decreases MAX_DEPTH - old(self).depth, 3nat,
    {
        let start = self.current.span.start;
        self.advance()?;
        let mut fields: Vec<Field<'a>> = Vec::new();
        loop
            invariant
                self.stepped(*old(self)),
                self.budget() >= old(self).budget() + 4,
                forall|i: int| 0 <= i < fields@.len() ==> field_closed(#[trigger] fields@[i], self.builder.exprs().len() as int),
            decreases self.source@.len() - self.last_end,
        {
            if self.at_byte(0x7d) {
                break;
            }
            let ghost before = *self;
            let field = self.field()?;
            fields.push(field);
            let comma = self.eat_byte(0x2c)?;
            if !comma {
                let semicolon = self.eat_byte(0x3b)?;
                if !semicolon {
                    break;
                }
            }
            proof {
                assert(self.last_end > before.last_end);
            }
        }
        self.expect_match(TokenKind::Byte(0x7d), TokenKind::Byte(0x7b), start)?;
        let span = self.span_from(start);
        Ok(self.builder.expr(ExprKind::Table(fields), span))
    }

    fn field(&mut self) -> (r: Result<Field<'a>, Error>)
        requires
            old(self).inv(),
        ensures
            r is Ok ==> final(self).stepped(*old(self)) && final(self).budget() >= old(self).budget() + 2,
            r matches Ok(field) ==> field_closed(field, final(self).builder.exprs().len() as int),
        decreases MAX_DEPTH - old(self).depth, 2nat,
    {
        if self.eat_byte(0x5b)? {
            let key = self.expr()?;
            self.expect(TokenKind::Byte(0x5d))?;
            self.expect(TokenKind::Byte(0x3d))?;
            let value = self.expr()?;
            return Ok(Field::Keyed { key, value });
        }
        // A name is a key only when `=` follows it; otherwise it starts an ordinary expression.
        if let Some(name) = self.current_name() {
            self.peek()?;
            let named = match &self.ahead {
                Some(next) => matches!(next.kind, TokenKind::Byte(0x3d)),
                None => false,
            };
            if named {
                self.advance()?;
                self.advance()?;
                let value = self.expr()?;
                return Ok(Field::Named { name, value });
            }
        }
        let value = self.expr()?;
        Ok(Field::Positional(value))
    }

    /// The name after `.` or in `function a.b`, as the string key it stands for.
    pub(crate) fn name_as_string(&mut self) -> (r: Result<ExprId, Error>)
        requires
            old(self).inv(),
        ensures
            r is Ok ==> final(self).stepped(*old(self)) && final(self).budget() >= old(self).budget() + 3,
            r matches Ok(id) ==> id.id() < final(self).builder.exprs().len() && final(self).builder.exprs()[id.id()].kind is Str,
            r is Ok <==> old(self).current.kind is Name && old(self).can_step(),
            r matches Ok(id) ==> id.id() == old(self).builder.exprs().len() && (old(self).current.kind matches TokenKind::Name(
                n,
            ) && final(self).builder.exprs()[id.id()].kind matches ExprKind::Str(bytes) && bytes@ == n@),
    {
        let span = self.current.span;
        let name = self.name()?;
        Ok(self.builder.expr(ExprKind::Str(vstd::slice::slice_to_vec(name)), span))
    }
}

} // verus!
