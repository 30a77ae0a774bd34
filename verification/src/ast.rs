//! The syntax tree: one arena per kind of node, and ids that index them.
use vstd::prelude::*;

use crate::token::{FloatValue, Span};

verus! {

#[derive(Debug, Clone, Copy, PartialEq, Eq, Structural)]
pub struct ExprId(pub(crate) u32);

#[derive(Debug, Clone, Copy, PartialEq, Eq, Structural)]
pub struct StatId(pub(crate) u32);

#[derive(Debug, Clone, Copy, PartialEq, Eq, Structural)]
pub struct BlockId(pub(crate) u32);

#[derive(Debug, Clone, Copy, PartialEq, Eq, Structural)]
pub struct FuncId(pub(crate) u32);

impl ExprId {
    pub open(crate) spec fn id(self) -> int {
        self.0 as int
    }
}

impl StatId {
    pub open(crate) spec fn id(self) -> int {
        self.0 as int
    }
}

impl BlockId {
    pub open(crate) spec fn id(self) -> int {
        self.0 as int
    }
}

impl FuncId {
    pub open(crate) spec fn id(self) -> int {
        self.0 as int
    }
}

pub struct Ast<'a> {
    exprs: Vec<Expr<'a>>,
    stats: Vec<Stat<'a>>,
    blocks: Vec<Block>,
    funcs: Vec<Func<'a>>,
    main: BlockId,
    /// When each node was made, counted over the four kinds together.
    born: Ghost<Born>,
}

/// When each node was made, counted over the four kinds of node together, and the count so
/// far.
pub struct Born {
    pub exprs: Seq<nat>,
    pub stats: Seq<nat>,
    pub blocks: Seq<nat>,
    pub funcs: Seq<nat>,
    pub clock: nat,
}

#[derive(Debug)]
pub struct Expr<'a> {
    pub kind: ExprKind<'a>,
    pub span: Span,
}

#[derive(Debug)]
pub struct Stat<'a> {
    pub kind: StatKind<'a>,
    pub span: Span,
}

#[derive(Debug)]
pub struct Block {
    pub stats: Vec<StatId>,
    pub span: Span,
}

#[derive(Debug)]
pub enum ExprKind<'a> {
    Nil,
    True,
    False,
    Int(i64),
    Float(FloatValue<'a>),
    Str(Vec<u8>),
    Vararg,
    Name(&'a [u8]),
    Paren(ExprId),
    Index { object: ExprId, key: ExprId },
    Call { callee: ExprId, args: Vec<ExprId> },
    Method { object: ExprId, name: &'a [u8], args: Vec<ExprId> },
    Unary { op: UnOp, operand: ExprId },
    Binary { op: BinOp, left: ExprId, right: ExprId },
    Table(Vec<Field<'a>>),
    Function(FuncId),
}

#[derive(Debug)]
pub enum Field<'a> {
    Positional(ExprId),
    Named { name: &'a [u8], value: ExprId },
    Keyed { key: ExprId, value: ExprId },
}

#[derive(Debug)]
pub enum StatKind<'a> {
    /// A call standing on its own.
    Expr(ExprId),
    Assign { targets: Vec<ExprId>, values: Vec<ExprId> },
    Local { names: Vec<VarName<'a>>, values: Vec<ExprId> },
    Do(BlockId),
    /// `global <attrib> *` - every name is allowed, with that attribute.
    GlobalAll { attribute: Option<Attribute> },
    Global { names: Vec<VarName<'a>>, values: Vec<ExprId> },
    /// `function a.b:c()`. The target is where the value is stored;
    /// whether it was written with a colon lives on the function itself.
    Function { target: ExprId, func: FuncId },
    GlobalFunction { name: &'a [u8], func: FuncId },
    LocalFunction { name: &'a [u8], func: FuncId },
    While { condition: ExprId, body: BlockId },
    Repeat { body: BlockId, condition: ExprId },
    NumericFor {
        name: &'a [u8],
        start: ExprId,
        limit: ExprId,
        step: Option<ExprId>,
        body: BlockId,
    },
    GenericFor { names: Vec<&'a [u8]>, exprs: Vec<ExprId>, body: BlockId },
    /// `if` and each `elseif` are one arm apiece; a trailing `else` block is kept apart.
    If { arms: Vec<(ExprId, BlockId)>, otherwise: Option<BlockId> },
    Return(Vec<ExprId>),
    Break,
    Goto(&'a [u8]),
    Label(&'a [u8]),
}

/// A function body, shared by every form that has one: literals, `function a.b()`, and `local function f()`.
#[derive(Debug)]
pub struct Func<'a> {
    pub params: Vec<&'a [u8]>,
    /// `...`, and the name it was bound to when it had one.
    pub vararg: Option<Vararg<'a>>,
    pub is_method: bool,
    pub body: BlockId,
    pub span: Span,
}

/// What the `...` of a parameter list was written as.
#[derive(Debug, Clone, Copy, PartialEq, Eq)]
pub enum Vararg<'a> {
    Anonymous,
    /// `...t` - the extra arguments arrive as a table under this name.
    Named(&'a [u8]),
}

/// One name in a `local` or `global` list, with the attributes written after it.
#[derive(Debug)]
pub struct VarName<'a> {
    pub name: &'a [u8],
    pub attribute: Option<Attribute>,
    pub span: Span,
}

#[derive(Debug, Clone, Copy, PartialEq, Eq, Structural)]
pub enum Attribute {
    Const,
    Close,
}

#[derive(Debug, Clone, Copy, PartialEq, Eq, Structural)]
pub enum UnOp {
    Neg,
    Not,
    Len,
    BNot,
}

#[derive(Debug, Clone, Copy, PartialEq, Eq, Structural)]
pub enum BinOp {
    Add,
    Sub,
    Mul,
    Div,
    IDiv,
    Mod,
    Pow,
    Concat,
    Eq,
    Ne,
    Lt,
    Le,
    Gt,
    Ge,
    And,
    Or,
    BAnd,
    BOr,
    BXor,
    Shl,
    Shr,
}

/// Every id in the list is below `n`.
pub open spec fn expr_ids_below(ids: Seq<ExprId>, n: int) -> bool {
    forall|i: int| 0 <= i < ids.len() ==> #[trigger] ids[i].id() < n
}

/// Every expression a table field names is below `ne`.
pub open spec fn field_closed(field: Field, ne: int) -> bool {
    match field {
        Field::Positional(value) => value.id() < ne,
        Field::Named { value, .. } => value.id() < ne,
        Field::Keyed { key, value } => key.id() < ne && value.id() < ne,
    }
}

/// Every expression an expression names is below `ne`, and every function below `nf`.
pub open spec fn expr_kind_closed(kind: ExprKind, ne: int, nf: int) -> bool {
    match kind {
        ExprKind::Paren(inner) => inner.id() < ne,
        ExprKind::Index { object, key } => object.id() < ne && key.id() < ne,
        ExprKind::Call { callee, args } => callee.id() < ne && expr_ids_below(args@, ne),
        ExprKind::Method { object, args, .. } => object.id() < ne && expr_ids_below(args@, ne),
        ExprKind::Unary { operand, .. } => operand.id() < ne,
        ExprKind::Binary { left, right, .. } => left.id() < ne && right.id() < ne,
        ExprKind::Table(fields) => forall|i: int| 0 <= i < fields@.len() ==> field_closed(#[trigger] fields@[i], ne),
        ExprKind::Function(func) => func.id() < nf,
        _ => true,
    }
}

/// Every expression, block and function a statement names is below `ne`, `nb` and `nf`.
pub open spec fn stat_kind_closed(kind: StatKind, ne: int, nb: int, nf: int) -> bool {
    match kind {
        StatKind::Expr(call) => call.id() < ne,
        StatKind::Assign { targets, values } => expr_ids_below(targets@, ne) && expr_ids_below(values@, ne),
        StatKind::Local { values, .. } => expr_ids_below(values@, ne),
        StatKind::Do(body) => body.id() < nb,
        StatKind::Global { values, .. } => expr_ids_below(values@, ne),
        StatKind::Function { target, func } => target.id() < ne && func.id() < nf,
        StatKind::GlobalFunction { func, .. } => func.id() < nf,
        StatKind::LocalFunction { func, .. } => func.id() < nf,
        StatKind::While { condition, body } => condition.id() < ne && body.id() < nb,
        StatKind::Repeat { body, condition } => body.id() < nb && condition.id() < ne,
        StatKind::NumericFor { start, limit, step, body, .. } => start.id() < ne && limit.id() < ne && (step matches Some(
            s,
        ) ==> s.id() < ne) && body.id() < nb,
        StatKind::GenericFor { exprs, body, .. } => expr_ids_below(exprs@, ne) && body.id() < nb,
        StatKind::If { arms, otherwise } => (forall|i: int|
            0 <= i < arms@.len() ==> #[trigger] arms@[i].0.id() < ne && arms@[i].1.id() < nb) && (otherwise matches Some(
            b,
        ) ==> b.id() < nb),
        StatKind::Return(values) => expr_ids_below(values@, ne),
        _ => true,
    }
}

/// The nodes name only nodes that exist, and an expression only expressions made before it:
/// every id in the tree can be looked up.
pub open spec fn nodes_closed(exprs: Seq<Expr>, stats: Seq<Stat>, blocks: Seq<Block>, funcs: Seq<Func>) -> bool {
    &&& exprs.len() < u32::MAX
    &&& stats.len() < u32::MAX
    &&& blocks.len() < u32::MAX
    &&& funcs.len() < u32::MAX
    &&& forall|i: int| 0 <= i < exprs.len() ==> expr_kind_closed(#[trigger] exprs[i].kind, i, funcs.len() as int)
    &&& forall|i: int|
        0 <= i < stats.len() ==> stat_kind_closed(
            #[trigger] stats[i].kind,
            exprs.len() as int,
            blocks.len() as int,
            funcs.len() as int,
        )
    &&& forall|i: int, j: int| 0 <= i < blocks.len() && 0 <= j < blocks[i].stats@.len() ==> #[trigger] blocks[i].stats@[j].id() < stats.len()
    &&& forall|i: int| 0 <= i < funcs.len() ==> #[trigger] funcs[i].body.id() < blocks.len()
}

/// Every node was made before the clock reads now, and the node that names another was made
/// after it: walking down the tree goes back in time.
pub open spec fn made_in_order(exprs: Seq<Expr>, stats: Seq<Stat>, blocks: Seq<Block>, funcs: Seq<Func>, born: Born) -> bool {
    &&& born.exprs.len() == exprs.len()
    &&& born.stats.len() == stats.len()
    &&& born.blocks.len() == blocks.len()
    &&& born.funcs.len() == funcs.len()
    &&& forall|i: int| 0 <= i < exprs.len() ==> #[trigger] born.exprs[i] < born.clock
    &&& forall|i: int| 0 <= i < stats.len() ==> #[trigger] born.stats[i] < born.clock
    &&& forall|i: int| 0 <= i < blocks.len() ==> #[trigger] born.blocks[i] < born.clock
    &&& forall|i: int| 0 <= i < funcs.len() ==> #[trigger] born.funcs[i] < born.clock
    &&& forall|i: int| 0 <= i < exprs.len() ==> expr_kind_before(#[trigger] exprs[i].kind, born, born.exprs[i])
    &&& forall|i: int| 0 <= i < stats.len() ==> stat_kind_before(#[trigger] stats[i].kind, born, born.stats[i])
    &&& forall|i: int, j: int|
        0 <= i < blocks.len() && 0 <= j < blocks[i].stats@.len() ==> born.stats[#[trigger] blocks[i].stats@[j].id()]
            < born.blocks[i]
    &&& forall|i: int| 0 <= i < funcs.len() ==> born.blocks[#[trigger] funcs[i].body.id()] < born.funcs[i]
}

/// Every expression in the list was made before `t`.
pub open spec fn exprs_before(ids: Seq<ExprId>, born: Born, t: nat) -> bool {
    forall|i: int| 0 <= i < ids.len() ==> born.exprs[#[trigger] ids[i].id()] < t
}

/// Every node an expression names was made before `t`.
pub open spec fn expr_kind_before(kind: ExprKind, born: Born, t: nat) -> bool {
    match kind {
        ExprKind::Paren(inner) => born.exprs[inner.id()] < t,
        ExprKind::Index { object, key } => born.exprs[object.id()] < t && born.exprs[key.id()] < t,
        ExprKind::Call { callee, args } => born.exprs[callee.id()] < t && exprs_before(args@, born, t),
        ExprKind::Method { object, args, .. } => born.exprs[object.id()] < t && exprs_before(args@, born, t),
        ExprKind::Unary { operand, .. } => born.exprs[operand.id()] < t,
        ExprKind::Binary { left, right, .. } => born.exprs[left.id()] < t && born.exprs[right.id()] < t,
        ExprKind::Table(fields) => forall|i: int|
            0 <= i < fields@.len() ==> match #[trigger] fields@[i] {
                Field::Positional(value) => born.exprs[value.id()] < t,
                Field::Named { value, .. } => born.exprs[value.id()] < t,
                Field::Keyed { key, value } => born.exprs[key.id()] < t && born.exprs[value.id()] < t,
            },
        ExprKind::Function(func) => born.funcs[func.id()] < t,
        _ => true,
    }
}

/// Every node a statement names was made before `t`.
pub open spec fn stat_kind_before(kind: StatKind, born: Born, t: nat) -> bool {
    match kind {
        StatKind::Expr(call) => born.exprs[call.id()] < t,
        StatKind::Assign { targets, values } => exprs_before(targets@, born, t) && exprs_before(values@, born, t),
        StatKind::Local { values, .. } => exprs_before(values@, born, t),
        StatKind::Do(body) => born.blocks[body.id()] < t,
        StatKind::Global { values, .. } => exprs_before(values@, born, t),
        StatKind::Function { target, func } => born.exprs[target.id()] < t && born.funcs[func.id()] < t,
        StatKind::GlobalFunction { func, .. } => born.funcs[func.id()] < t,
        StatKind::LocalFunction { func, .. } => born.funcs[func.id()] < t,
        StatKind::While { condition, body } => born.exprs[condition.id()] < t && born.blocks[body.id()] < t,
        StatKind::Repeat { body, condition } => born.blocks[body.id()] < t && born.exprs[condition.id()] < t,
        StatKind::NumericFor { start, limit, step, body, .. } => born.exprs[start.id()] < t && born.exprs[limit.id()]
            < t && (step matches Some(s) ==> born.exprs[s.id()] < t) && born.blocks[body.id()] < t,
        StatKind::GenericFor { exprs, body, .. } => exprs_before(exprs@, born, t) && born.blocks[body.id()] < t,
        StatKind::If { arms, otherwise } => (forall|i: int|
            0 <= i < arms@.len() ==> born.exprs[#[trigger] arms@[i].0.id()] < t && born.blocks[arms@[i].1.id()] < t)
            && (otherwise matches Some(b) ==> born.blocks[b.id()] < t),
        StatKind::Return(values) => exprs_before(values@, born, t),
        _ => true,
    }
}

/// `later` is `earlier` with more nodes made since.
pub open spec fn born_extends(later: Born, earlier: Born) -> bool {
    &&& earlier.exprs.len() <= later.exprs.len()
    &&& earlier.stats.len() <= later.stats.len()
    &&& earlier.blocks.len() <= later.blocks.len()
    &&& earlier.funcs.len() <= later.funcs.len()
    &&& earlier.clock <= later.clock
    &&& forall|i: int| 0 <= i < earlier.exprs.len() ==> #[trigger] later.exprs[i] == earlier.exprs[i]
    &&& forall|i: int| 0 <= i < earlier.stats.len() ==> #[trigger] later.stats[i] == earlier.stats[i]
    &&& forall|i: int| 0 <= i < earlier.blocks.len() ==> #[trigger] later.blocks[i] == earlier.blocks[i]
    &&& forall|i: int| 0 <= i < earlier.funcs.len() ==> #[trigger] later.funcs[i] == earlier.funcs[i]
}

/// Every node made so far was made before the clock reads now.
pub open spec fn all_before_clock(born: Born) -> bool {
    &&& forall|i: int| 0 <= i < born.exprs.len() ==> #[trigger] born.exprs[i] < born.clock
    &&& forall|i: int| 0 <= i < born.stats.len() ==> #[trigger] born.stats[i] < born.clock
    &&& forall|i: int| 0 <= i < born.blocks.len() ==> #[trigger] born.blocks[i] < born.clock
    &&& forall|i: int| 0 <= i < born.funcs.len() ==> #[trigger] born.funcs[i] < born.clock
}

/// An expression whose children exist keeps their times when more nodes are made, and a new
/// one made now comes after all of them.
proof fn lemma_expr_before(kind: ExprKind, born: Born, later: Born, t: nat)
    requires
        expr_kind_closed(kind, born.exprs.len() as int, born.funcs.len() as int),
        born_extends(later, born),
        expr_kind_before(kind, born, t) || (all_before_clock(born) && t == born.clock),
    ensures
        expr_kind_before(kind, later, t),
{
    match kind {
        ExprKind::Call { args, .. } => {
            assert forall|i: int| 0 <= i < args@.len() implies later.exprs[#[trigger] args@[i].id()] < t by {
                assert(args@[i].id() < born.exprs.len());
            }
        },
        ExprKind::Method { args, .. } => {
            assert forall|i: int| 0 <= i < args@.len() implies later.exprs[#[trigger] args@[i].id()] < t by {
                assert(args@[i].id() < born.exprs.len());
            }
        },
        ExprKind::Table(fields) => {
            assert forall|i: int| 0 <= i < fields@.len() implies match #[trigger] fields@[i] {
                Field::Positional(value) => later.exprs[value.id()] < t,
                Field::Named { value, .. } => later.exprs[value.id()] < t,
                Field::Keyed { key, value } => later.exprs[key.id()] < t && later.exprs[value.id()] < t,
            } by {
                assert(field_closed(fields@[i], born.exprs.len() as int));
            }
        },
        _ => {},
    }
}

/// The same, for statements.
proof fn lemma_stat_before(kind: StatKind, born: Born, later: Born, t: nat)
    requires
        stat_kind_closed(kind, born.exprs.len() as int, born.blocks.len() as int, born.funcs.len() as int),
        born_extends(later, born),
        stat_kind_before(kind, born, t) || (all_before_clock(born) && t == born.clock),
    ensures
        stat_kind_before(kind, later, t),
{
    match kind {
        StatKind::Assign { targets, values } => {
            assert forall|i: int| 0 <= i < targets@.len() implies later.exprs[#[trigger] targets@[i].id()] < t by {
                assert(targets@[i].id() < born.exprs.len());
            }
            assert forall|i: int| 0 <= i < values@.len() implies later.exprs[#[trigger] values@[i].id()] < t by {
                assert(values@[i].id() < born.exprs.len());
            }
        },
        StatKind::Local { values, .. } => {
            assert forall|i: int| 0 <= i < values@.len() implies later.exprs[#[trigger] values@[i].id()] < t by {
                assert(values@[i].id() < born.exprs.len());
            }
        },
        StatKind::Global { values, .. } => {
            assert forall|i: int| 0 <= i < values@.len() implies later.exprs[#[trigger] values@[i].id()] < t by {
                assert(values@[i].id() < born.exprs.len());
            }
        },
        StatKind::Return(values) => {
            assert forall|i: int| 0 <= i < values@.len() implies later.exprs[#[trigger] values@[i].id()] < t by {
                assert(values@[i].id() < born.exprs.len());
            }
        },
        StatKind::GenericFor { exprs, .. } => {
            assert forall|i: int| 0 <= i < exprs@.len() implies later.exprs[#[trigger] exprs@[i].id()] < t by {
                assert(exprs@[i].id() < born.exprs.len());
            }
        },
        StatKind::If { arms, .. } => {
            assert forall|i: int| 0 <= i < arms@.len() implies later.exprs[#[trigger] arms@[i].0.id()] < t
                && later.blocks[arms@[i].1.id()] < t by {
                assert(arms@[i].0.id() < born.exprs.len() && arms@[i].1.id() < born.blocks.len());
            }
        },
        _ => {},
    }
}

/// The nodes made so far stay in order when one more is made: their times are kept, and the
/// clock only moves on.
proof fn lemma_born_pushed(exprs: Seq<Expr>, stats: Seq<Stat>, blocks: Seq<Block>, funcs: Seq<Func>, born: Born, later: Born)
    requires
        nodes_closed(exprs, stats, blocks, funcs),
        made_in_order(exprs, stats, blocks, funcs, born),
        born_extends(later, born),
        later.clock == born.clock + 1,
    ensures
        all_before_clock(born),
        forall|i: int| 0 <= i < exprs.len() ==> expr_kind_before(#[trigger] exprs[i].kind, later, later.exprs[i]),
        forall|i: int| 0 <= i < stats.len() ==> stat_kind_before(#[trigger] stats[i].kind, later, later.stats[i]),
        forall|i: int, j: int|
            0 <= i < blocks.len() && 0 <= j < blocks[i].stats@.len() ==> later.stats[#[trigger] blocks[i].stats@[j].id()]
                < later.blocks[i],
        forall|i: int| 0 <= i < funcs.len() ==> later.blocks[#[trigger] funcs[i].body.id()] < later.funcs[i],
{
    assert forall|i: int| 0 <= i < exprs.len() implies expr_kind_before(#[trigger] exprs[i].kind, later, later.exprs[i]) by {
        lemma_expr_kind_grows(exprs[i].kind, i, funcs.len() as int, exprs.len() as int, funcs.len() as int);
        lemma_expr_before(exprs[i].kind, born, later, born.exprs[i]);
    }
    assert forall|i: int| 0 <= i < stats.len() implies stat_kind_before(#[trigger] stats[i].kind, later, later.stats[i]) by {
        lemma_stat_before(stats[i].kind, born, later, born.stats[i]);
    }
    assert forall|i: int, j: int|
        0 <= i < blocks.len() && 0 <= j < blocks[i].stats@.len() implies later.stats[#[trigger] blocks[i].stats@[j].id()]
            < later.blocks[i] by {
        assert(blocks[i].stats@[j].id() < stats.len());
    }
    assert forall|i: int| 0 <= i < funcs.len() implies later.blocks[#[trigger] funcs[i].body.id()] < later.funcs[i] by {
        assert(funcs[i].body.id() < blocks.len());
    }
}

/// Naming only nodes below some counts, a kind names only nodes below larger ones.
pub proof fn lemma_expr_kind_grows(kind: ExprKind, ne: int, nf: int, ne2: int, nf2: int)
    requires
        expr_kind_closed(kind, ne, nf),
        ne <= ne2,
        nf <= nf2,
    ensures
        expr_kind_closed(kind, ne2, nf2),
{
    if let ExprKind::Table(fields) = kind {
        assert forall|i: int| 0 <= i < fields@.len() implies field_closed(#[trigger] fields@[i], ne2) by {
            assert(field_closed(fields@[i], ne));
        }
    }
}

/// The same, for statements.
pub proof fn lemma_stat_kind_grows(kind: StatKind, ne: int, nb: int, nf: int, ne2: int, nb2: int, nf2: int)
    requires
        stat_kind_closed(kind, ne, nb, nf),
        ne <= ne2,
        nb <= nb2,
        nf <= nf2,
    ensures
        stat_kind_closed(kind, ne2, nb2, nf2),
{
}

impl<'a> Ast<'a> {
    pub closed spec fn exprs(&self) -> Seq<Expr<'a>> {
        self.exprs@
    }

    pub closed spec fn stats(&self) -> Seq<Stat<'a>> {
        self.stats@
    }

    pub closed spec fn blocks(&self) -> Seq<Block> {
        self.blocks@
    }

    pub closed spec fn funcs(&self) -> Seq<Func<'a>> {
        self.funcs@
    }

    pub closed spec fn main_id(&self) -> BlockId {
        self.main
    }

    /// When each node was made.
    pub closed spec fn born(&self) -> Born {
        self.born@
    }

    /// The chunk's own block is one of the tree's blocks, every id in the tree names a node
    /// of it, and a node names only nodes made before it.
    pub open spec fn wf(&self) -> bool {
        &&& self.main_id().id() < self.blocks().len()
        &&& nodes_closed(self.exprs(), self.stats(), self.blocks(), self.funcs())
        &&& made_in_order(self.exprs(), self.stats(), self.blocks(), self.funcs(), self.born())
    }

    /// How many expression nodes the tree has.
    pub fn expr_count(&self) -> (count: usize)
        ensures
            count == self.exprs().len(),
    {
        self.exprs.len()
    }

    /// How many statement nodes the tree has.
    pub fn stat_count(&self) -> (count: usize)
        ensures
            count == self.stats().len(),
    {
        self.stats.len()
    }

    /// How many function nodes the tree has.
    pub fn func_count(&self) -> (count: usize)
        ensures
            count == self.funcs().len(),
    {
        self.funcs.len()
    }

    /// The chunk's own block's id.
    pub fn main_block_id(&self) -> (id: BlockId)
        ensures
            id == self.main_id(),
    {
        self.main
    }

    /// The chunk's own block.
    pub fn main_block(&self) -> (block: &Block)
        requires
            self.wf(),
        ensures
            *block == self.blocks()[self.main_id().id()],
    {
        self.block(self.main)
    }

    pub fn block(&self, id: BlockId) -> (block: &Block)
        requires
            id.id() < self.blocks().len(),
        ensures
            *block == self.blocks()[id.id()],
    {
        &self.blocks[id.0 as usize]
    }

    pub fn expr(&self, id: ExprId) -> (expr: &Expr<'a>)
        requires
            id.id() < self.exprs().len(),
        ensures
            *expr == self.exprs()[id.id()],
    {
        &self.exprs[id.0 as usize]
    }

    pub fn stat(&self, id: StatId) -> (stat: &Stat<'a>)
        requires
            id.id() < self.stats().len(),
        ensures
            *stat == self.stats()[id.id()],
    {
        &self.stats[id.0 as usize]
    }

    pub fn func(&self, id: FuncId) -> (func: &Func<'a>)
        requires
            id.id() < self.funcs().len(),
        ensures
            *func == self.funcs()[id.id()],
    {
        &self.funcs[id.0 as usize]
    }
}

/// Collects nodes while parsing.
pub struct Builder<'a> {
    exprs: Vec<Expr<'a>>,
    stats: Vec<Stat<'a>>,
    blocks: Vec<Block>,
    funcs: Vec<Func<'a>>,
    born: Ghost<Born>,
}

impl<'a> Builder<'a> {
    pub closed spec fn exprs(&self) -> Seq<Expr<'a>> {
        self.exprs@
    }

    pub closed spec fn stats(&self) -> Seq<Stat<'a>> {
        self.stats@
    }

    pub closed spec fn blocks(&self) -> Seq<Block> {
        self.blocks@
    }

    pub closed spec fn funcs(&self) -> Seq<Func<'a>> {
        self.funcs@
    }

    pub closed spec fn born(&self) -> Born {
        self.born@
    }

    /// Every id the nodes so far hold names a node, made before the node that names it.
    pub open spec fn closed(&self) -> bool {
        &&& nodes_closed(self.exprs(), self.stats(), self.blocks(), self.funcs())
        &&& made_in_order(self.exprs(), self.stats(), self.blocks(), self.funcs(), self.born())
    }

    pub fn new() -> (builder: Self)
        ensures
            builder.closed(),
            builder.exprs().len() == 0,
            builder.stats().len() == 0,
            builder.blocks().len() == 0,
            builder.funcs().len() == 0,
    {
        Builder {
            exprs: Vec::new(),
            stats: Vec::new(),
            blocks: Vec::new(),
            funcs: Vec::new(),
            born: Ghost(Born { exprs: Seq::empty(), stats: Seq::empty(), blocks: Seq::empty(), funcs: Seq::empty(), clock: 0 }),
        }
    }

    pub fn expr(&mut self, kind: ExprKind<'a>, span: Span) -> (id: ExprId)
        requires
            old(self).exprs().len() + 1 < u32::MAX,
        ensures
            id.id() == old(self).exprs().len(),
            final(self).exprs() == old(self).exprs().push(Expr { kind, span }),
            final(self).stats() == old(self).stats(),
            final(self).blocks() == old(self).blocks(),
            final(self).funcs() == old(self).funcs(),
            old(self).closed() && expr_kind_closed(kind, old(self).exprs().len() as int, old(self).funcs().len() as int)
                ==> final(self).closed(),
    {
        let ghost before = *self;
        self.exprs.push(Expr { kind, span });
        let ghost b = before.born@;
        self.born = Ghost(Born { exprs: b.exprs.push(b.clock), clock: b.clock + 1, ..b });
        proof {
            if before.closed() && expr_kind_closed(kind, before.exprs().len() as int, before.funcs().len() as int) {
                lemma_born_pushed(before.exprs(), before.stats(), before.blocks(), before.funcs(), b, self.born@);
                lemma_expr_before(kind, b, self.born@, b.clock);
                assert forall|i: int| 0 <= i < self.stats@.len() implies stat_kind_closed(
                    #[trigger] self.stats@[i].kind,
                    self.exprs@.len() as int,
                    self.blocks@.len() as int,
                    self.funcs@.len() as int,
                ) by {
                    lemma_stat_kind_grows(
                        self.stats@[i].kind,
                        before.exprs@.len() as int,
                        self.blocks@.len() as int,
                        self.funcs@.len() as int,
                        self.exprs@.len() as int,
                        self.blocks@.len() as int,
                        self.funcs@.len() as int,
                    );
                }
                assert forall|i: int| 0 <= i < self.exprs@.len() implies expr_kind_closed(
                    #[trigger] self.exprs@[i].kind,
                    i,
                    self.funcs@.len() as int,
                ) by {
                    if i < before.exprs@.len() {
                        assert(self.exprs@[i] == before.exprs@[i]);
                    }
                }
            }
        }
        ExprId((self.exprs.len() - 1) as u32)
    }

    pub fn stat(&mut self, kind: StatKind<'a>, span: Span) -> (id: StatId)
        requires
            old(self).stats().len() + 1 < u32::MAX,
        ensures
            id.id() == old(self).stats().len(),
            final(self).stats() == old(self).stats().push(Stat { kind, span }),
            final(self).exprs() == old(self).exprs(),
            final(self).blocks() == old(self).blocks(),
            final(self).funcs() == old(self).funcs(),
            old(self).closed() && stat_kind_closed(
                kind,
                old(self).exprs().len() as int,
                old(self).blocks().len() as int,
                old(self).funcs().len() as int,
            ) ==> final(self).closed(),
    {
        let ghost before = *self;
        self.stats.push(Stat { kind, span });
        let ghost b = before.born@;
        self.born = Ghost(Born { stats: b.stats.push(b.clock), clock: b.clock + 1, ..b });
        proof {
            if before.closed() && stat_kind_closed(
                kind,
                before.exprs@.len() as int,
                before.blocks@.len() as int,
                before.funcs@.len() as int,
            ) {
                lemma_born_pushed(before.exprs(), before.stats(), before.blocks(), before.funcs(), b, self.born@);
                lemma_stat_before(kind, b, self.born@, b.clock);
                assert forall|i: int| 0 <= i < self.stats@.len() implies stat_kind_closed(
                    #[trigger] self.stats@[i].kind,
                    self.exprs@.len() as int,
                    self.blocks@.len() as int,
                    self.funcs@.len() as int,
                ) by {
                    if i < before.stats@.len() {
                        assert(self.stats@[i] == before.stats@[i]);
                    }
                }
            }
        }
        StatId((self.stats.len() - 1) as u32)
    }

    pub fn block(&mut self, stats: Vec<StatId>, span: Span) -> (id: BlockId)
        requires
            old(self).blocks().len() + 1 < u32::MAX,
        ensures
            id.id() == old(self).blocks().len(),
            final(self).blocks() == old(self).blocks().push(Block { stats, span }),
            final(self).exprs() == old(self).exprs(),
            final(self).stats() == old(self).stats(),
            final(self).funcs() == old(self).funcs(),
            old(self).closed() && (forall|j: int| 0 <= j < stats@.len() ==> #[trigger] stats@[j].id() < old(self).stats().len())
                ==> final(self).closed(),
    {
        let ghost before = *self;
        let ghost listed = stats@;
        self.blocks.push(Block { stats, span });
        let ghost b = before.born@;
        self.born = Ghost(Born { blocks: b.blocks.push(b.clock), clock: b.clock + 1, ..b });
        proof {
            if before.closed() && (forall|j: int| 0 <= j < listed.len() ==> #[trigger] listed[j].id() < before.stats@.len()) {
                lemma_born_pushed(before.exprs(), before.stats(), before.blocks(), before.funcs(), b, self.born@);
                assert forall|i: int| 0 <= i < self.stats@.len() implies stat_kind_closed(
                    #[trigger] self.stats@[i].kind,
                    self.exprs@.len() as int,
                    self.blocks@.len() as int,
                    self.funcs@.len() as int,
                ) by {
                    lemma_stat_kind_grows(
                        self.stats@[i].kind,
                        self.exprs@.len() as int,
                        before.blocks@.len() as int,
                        self.funcs@.len() as int,
                        self.exprs@.len() as int,
                        self.blocks@.len() as int,
                        self.funcs@.len() as int,
                    );
                }
                assert forall|i: int, j: int|
                    0 <= i < self.blocks@.len() && 0 <= j < self.blocks@[i].stats@.len() implies #[trigger] self.blocks@[i].stats@[j].id()
                    < self.stats@.len() by {
                    if i < before.blocks@.len() {
                        assert(self.blocks@[i] == before.blocks@[i]);
                    } else {
                        assert(self.blocks@[i].stats@ == listed);
                    }
                }
            }
        }
        BlockId((self.blocks.len() - 1) as u32)
    }

    pub fn func(&mut self, func: Func<'a>) -> (id: FuncId)
        requires
            old(self).funcs().len() + 1 < u32::MAX,
        ensures
            id.id() == old(self).funcs().len(),
            final(self).funcs() == old(self).funcs().push(func),
            final(self).exprs() == old(self).exprs(),
            final(self).stats() == old(self).stats(),
            final(self).blocks() == old(self).blocks(),
            old(self).closed() && func.body.id() < old(self).blocks().len() ==> final(self).closed(),
    {
        let ghost before = *self;
        let ghost body = func.body;
        self.funcs.push(func);
        let ghost b = before.born@;
        self.born = Ghost(Born { funcs: b.funcs.push(b.clock), clock: b.clock + 1, ..b });
        proof {
            if before.closed() && body.id() < before.blocks@.len() {
                lemma_born_pushed(before.exprs(), before.stats(), before.blocks(), before.funcs(), b, self.born@);
                assert forall|i: int| 0 <= i < self.stats@.len() implies stat_kind_closed(
                    #[trigger] self.stats@[i].kind,
                    self.exprs@.len() as int,
                    self.blocks@.len() as int,
                    self.funcs@.len() as int,
                ) by {
                    lemma_stat_kind_grows(
                        self.stats@[i].kind,
                        self.exprs@.len() as int,
                        self.blocks@.len() as int,
                        before.funcs@.len() as int,
                        self.exprs@.len() as int,
                        self.blocks@.len() as int,
                        self.funcs@.len() as int,
                    );
                }
                assert forall|i: int| 0 <= i < self.exprs@.len() implies expr_kind_closed(
                    #[trigger] self.exprs@[i].kind,
                    i,
                    self.funcs@.len() as int,
                ) by {
                    lemma_expr_kind_grows(self.exprs@[i].kind, i, before.funcs@.len() as int, i, self.funcs@.len() as int);
                }
                assert forall|i: int| 0 <= i < self.funcs@.len() implies #[trigger] self.funcs@[i].body.id() < self.blocks@.len() by {
                    if i < before.funcs@.len() {
                        assert(self.funcs@[i] == before.funcs@[i]);
                    }
                }
            }
        }
        FuncId((self.funcs.len() - 1) as u32)
    }

    /// What a node turned out to be.
    pub fn kind_of(&self, id: ExprId) -> (kind: &ExprKind<'a>)
        requires
            id.id() < self.exprs().len(),
        ensures
            *kind == self.exprs()[id.id()].kind,
    {
        &self.exprs[id.0 as usize].kind
    }

    pub fn finish(self, main: BlockId) -> (ast: Ast<'a>)
        ensures
            ast.exprs() == self.exprs(),
            ast.stats() == self.stats(),
            ast.blocks() == self.blocks(),
            ast.funcs() == self.funcs(),
            ast.main_id() == main,
            ast.born() == self.born(),
    {
        Ast {
            exprs: self.exprs,
            stats: self.stats,
            blocks: self.blocks,
            funcs: self.funcs,
            main,
            born: self.born,
        }
    }
}

} // verus!
