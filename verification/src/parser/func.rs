//! Function bodies, and the three forms that carry one.
use vstd::prelude::*;

use super::chunk::{Parser, MAX_DEPTH};
use crate::ast::{ExprId, ExprKind, Func, FuncId, StatKind, Vararg};
use crate::error::{Error, ErrorKind};
use crate::token::TokenKind;

verus! {

impl<'a> Parser<'a> {
    /// `funcstat -> 'function' funcname funcbody`, with `funcname -> NAME { '.' NAME } [':' NAME]`
    pub(crate) fn func_stat(&mut self) -> (r: Result<StatKind<'a>, Error>)
        requires
            old(self).inv(),
            old(self).current.kind == TokenKind::Function,
        ensures
            r is Ok ==> final(self).stepped(*old(self)) && final(self).budget() >= old(self).budget() + 2,
            r matches Ok(kind) ==> kind matches StatKind::Function { target, func } && target.id()
                < final(self).builder.exprs().len() && func.id() < final(self).builder.funcs().len(),
        decreases MAX_DEPTH - old(self).depth, 2nat,
    {
        let start = self.current.span.start;
        self.advance()?;
        let name_start = self.current.span.start;
        let name = self.name()?;
        let span = self.span_from(name_start);
        let mut target = self.builder.expr(ExprKind::Name(name), span);
        let mut is_method = false;
        loop
            invariant
                self.stepped(*old(self)),
                self.budget() >= old(self).budget() + 7,
                target.id() < self.builder.exprs().len(),
            decreases self.source@.len() - self.last_end,
        {
            let ghost before = *self;
            let key = if self.eat_byte(0x2e)? {
                self.name_as_string()?
            } else if self.eat_byte(0x3a)? {
                is_method = true;
                self.name_as_string()?
            } else {
                break;
            };
            let span = self.span_from(name_start);
            target = self.builder.expr(ExprKind::Index { object: target, key }, span);
            proof {
                assert(self.last_end > before.last_end);
            }
            // A colon ends the name: a method cannot be followed by more fields.
            if is_method {
                break;
            }
        }
        let func = self.func_body(start, is_method)?;
        Ok(StatKind::Function { target, func })
    }

    /// The `function() ... end` that appears where a value is expected.
    pub(crate) fn func_expr(&mut self, start: u32) -> (r: Result<ExprId, Error>)
        requires
            old(self).inv(),
            old(self).current.kind == TokenKind::Function,
        ensures
            r is Ok ==> final(self).stepped(*old(self)) && final(self).budget() >= old(self).budget() + 2,
            r matches Ok(id) ==> id.id() < final(self).builder.exprs().len() && final(self).builder.exprs()[id.id()].kind is Function,
        decreases MAX_DEPTH - old(self).depth, 2nat,
    {
        self.advance()?;
        let func = self.func_body(start, false)?;
        let span = self.span_from(start);
        Ok(self.builder.expr(ExprKind::Function(func), span))
    }

    /// `funcbody -> '(' [parlist] ')' block 'end'`, with `start` at the `function` keyword.
    pub(crate) fn func_body(&mut self, start: u32, is_method: bool) -> (r: Result<FuncId, Error>)
        requires
            old(self).inv(),
        ensures
            r is Ok ==> final(self).stepped(*old(self)) && final(self).budget() >= old(self).budget() + 2,
            r matches Ok(id) ==> id.id() < final(self).builder.funcs().len(),
            r is Ok ==> final(self).loops == old(self).loops && final(self).varargs == old(self).varargs,
        decreases MAX_DEPTH - old(self).depth, 1nat,
    {
        self.expect(TokenKind::Byte(0x28))?;
        let mut params: Vec<&'a [u8]> = Vec::new();
        let mut vararg: Option<Vararg<'a>> = None;
        if !self.at_byte(0x29) {
            loop
                invariant
                    self.stepped(*old(self)),
                    self.budget() >= old(self).budget() + 4,
                decreases self.source@.len() - self.last_end,
            {
                let ghost before = *self;
                // `...` ends the list wherever it appears, and it may bind a name of its own.
                if self.eat(TokenKind::Dots)? {
                    vararg = Some(
                        match self.current_name() {
                            Some(name) => {
                                self.advance()?;
                                Vararg::Named(name)
                            },
                            None => Vararg::Anonymous,
                        },
                    );
                    break;
                }
                if self.current_name().is_none() {
                    return Err(self.syntax(ErrorKind::NameOrDotsExpected));
                }
                let param = self.name()?;
                params.push(param);
                if !self.eat_byte(0x2c)? {
                    break;
                }
                proof {
                    assert(self.last_end > before.last_end);
                }
            }
        }
        self.expect(TokenKind::Byte(0x29))?;
        // A body starts its own counts: `...` and `break` never reach out of it.
        let outer_varargs = self.varargs;
        let outer_loops = self.loops;
        self.varargs = vararg.is_some();
        self.loops = 0;
        let body = self.block()?;
        self.varargs = outer_varargs;
        self.loops = outer_loops;
        self.expect_match(TokenKind::End, TokenKind::Function, start)?;
        let span = self.span_from(start);
        Ok(self.builder.func(Func { params, vararg, is_method, body, span }))
    }
}

} // verus!
