use std::collections::BTreeMap;

use vstd::prelude::*;

use crate::tokenizer::Span;

verus! {

/// The meaning of an expression: an integer literal or a variable reference.
pub enum SpecExprKind {
    Int64(i64),
    Identifier(Seq<char>),
}

pub struct SpecExpr {
    pub span: Span,
    pub kind: SpecExprKind,
}

/// The meaning of a statement: a `PRINT` of its arguments, or an assignment
/// of an expression to the variable of the given name.
pub enum SpecStatement {
    Print(Seq<SpecExpr>),
    Assign(Seq<char>, SpecExpr),
}

pub struct SpecLine {
    pub line_no: Option<u32>,
    pub statements: Seq<SpecStatement>,
}

#[derive(Debug, Clone, PartialEq, Eq)]
pub struct Program {
    pub lines: Vec<Line>,
}

impl View for Program {
    type V = Seq<SpecLine>;

    open spec fn view(&self) -> Seq<SpecLine> {
        self.lines@.map_values(|l: Line| l@)
    }
}

impl Program {
    pub fn new(lines: Vec<Line>) -> (p: Self)
        ensures
            p.lines@ == lines@,
    {
        Self { lines }
    }
}

impl From<Vec<Line>> for Program {
    fn from(lines: Vec<Line>) -> (p: Self) {
        Self { lines }
    }
}

impl vstd::std_specs::convert::FromSpecImpl<Vec<Line>> for Program {
    open spec fn obeys_from_spec() -> bool {
        true
    }

    open spec fn from_spec(lines: Vec<Line>) -> Program {
        Program { lines }
    }
}

#[derive(Debug, Clone, PartialEq, Eq)]
pub struct Line {
    pub line_no: Option<u32>,
    pub statements: Vec<Statement>,
}

impl View for Line {
    type V = SpecLine;

    open spec fn view(&self) -> SpecLine {
        SpecLine {
            line_no: self.line_no,
            statements: self.statements@.map_values(|s: Statement| s@),
        }
    }
}

impl Line {
    pub fn new(line_no: Option<u32>, statements: Vec<Statement>) -> (l: Self)
        ensures
            l.line_no == line_no,
            l.statements@ == statements@,
    {
        Self { line_no, statements }
    }
}

#[derive(Debug, Clone, PartialEq, Eq)]
pub enum LValue {
    Identifier(SymbolId),
}

impl View for LValue {
    type V = Seq<char>;

    open spec fn view(&self) -> Seq<char> {
        match self {
            LValue::Identifier(id) => id@,
        }
    }
}

#[derive(Debug, Clone, PartialEq, Eq)]
pub enum Statement {
    Print(PrintStatement),
    Assign(Assignment),
}

impl View for Statement {
    type V = SpecStatement;

    open spec fn view(&self) -> SpecStatement {
        match self {
            Statement::Print(ps) => SpecStatement::Print(ps@),
            Statement::Assign(a) => SpecStatement::Assign(a.lhs@, a.rhs@),
        }
    }
}

#[derive(Debug, Clone, PartialEq, Eq)]
pub struct Assignment {
    pub lhs: LValue,
    pub rhs: Expr,
}

impl Assignment {
    pub fn new(lhs: LValue, rhs: Expr) -> (a: Self)
        ensures
            a == (Assignment { lhs, rhs }),
    {
        Self { lhs, rhs }
    }
}

#[derive(Debug, Clone, PartialEq, Eq)]
pub struct PrintStatement(ArgList);

impl View for PrintStatement {
    type V = Seq<SpecExpr>;

    closed spec fn view(&self) -> Seq<SpecExpr> {
        self.0@
    }
}

impl PrintStatement {
    pub fn new(args: ArgList) -> (p: Self)
        ensures
            p@ == args@,
    {
        Self(args)
    }

    pub fn args(&self) -> (a: &ArgList)
        ensures
            a@ == self@,
    {
        &self.0
    }
}

#[derive(Debug, Clone, PartialEq, Eq)]
pub struct ArgList(Vec<Expr>);

impl View for ArgList {
    type V = Seq<SpecExpr>;

    closed spec fn view(&self) -> Seq<SpecExpr> {
        self.0@.map_values(|e: Expr| e@)
    }
}

impl ArgList {
    pub fn new(exprs: Vec<Expr>) -> (a: Self)
        ensures
            a@ == exprs@.map_values(|e: Expr| e@),
    {
        Self(exprs)
    }

    /// The argument expressions, in order.
    pub fn as_ref(&self) -> (s: &[Expr])
        ensures
            s@.map_values(|e: Expr| e@) == self@,
    {
        self.0.as_slice()
    }
}

impl From<Vec<Expr>> for ArgList {
    fn from(value: Vec<Expr>) -> (a: Self)
        ensures
            a@ == value@.map_values(|e: Expr| e@),
    {
        Self(value)
    }
}

/// An argument list converted from a vector holds the vector's expressions.
pub broadcast proof fn lemma_arglist_from(value: Vec<Expr>)
    ensures
        (#[trigger] <ArgList as vstd::std_specs::convert::FromSpec<Vec<Expr>>>::from_spec(
            value,
        ))@ == value@.map_values(|e: Expr| e@),
{
}

impl vstd::std_specs::convert::FromSpecImpl<Vec<Expr>> for ArgList {
    open spec fn obeys_from_spec() -> bool {
        true
    }

    closed spec fn from_spec(value: Vec<Expr>) -> ArgList {
        ArgList(value)
    }
}

impl From<ArgList> for PrintStatement {
    fn from(value: ArgList) -> (p: Self)
        ensures
            p@ == value@,
    {
        Self(value)
    }
}

/// A `PRINT` statement converted from an argument list prints those arguments.
pub broadcast proof fn lemma_print_from(value: ArgList)
    ensures
        (#[trigger] <PrintStatement as vstd::std_specs::convert::FromSpec<ArgList>>::from_spec(
            value,
        ))@ == value@,
{
}

impl vstd::std_specs::convert::FromSpecImpl<ArgList> for PrintStatement {
    open spec fn obeys_from_spec() -> bool {
        true
    }

    closed spec fn from_spec(value: ArgList) -> PrintStatement {
        PrintStatement(value)
    }
}

#[derive(Debug, Clone, PartialEq, Eq)]
pub struct Expr {
    pub span: Span,
    pub kind: ExprKind,
}

impl View for Expr {
    type V = SpecExpr;

    open spec fn view(&self) -> SpecExpr {
        SpecExpr { span: self.span, kind: self.kind@ }
    }
}

impl Expr {
    pub fn new(span: Span, kind: ExprKind) -> (e: Self)
        ensures
            e == (Expr { span, kind }),
    {
        Self { span, kind }
    }
}

#[derive(Debug, Clone, PartialEq, Eq)]
pub enum ExprKind {
    Int64(i64),
    Identifier(SymbolId),
}

impl View for ExprKind {
    type V = SpecExprKind;

    open spec fn view(&self) -> SpecExprKind {
        match self {
            ExprKind::Int64(v) => SpecExprKind::Int64(*v),
            ExprKind::Identifier(id) => SpecExprKind::Identifier(id@),
        }
    }
}

#[derive(Debug, Clone, PartialEq, Eq)]
pub struct Symbol {
    pub id: SymbolId,
    pub span: Span,
}

/// The name of a variable.
#[derive(Debug, Clone, PartialEq, Eq, Hash)]
pub struct SymbolId(String);

impl View for SymbolId {
    type V = Seq<char>;

    closed spec fn view(&self) -> Seq<char> {
        self.0@
    }
}

impl SymbolId {
    pub fn new(value: String) -> (id: Self)
        ensures
            id@ == value@,
    {
        Self(value)
    }

    /// The name, as text.
    pub fn as_str(&self) -> (s: &str)
        ensures
            s@ == self@,
    {
        self.0.as_str()
    }

    /// Whether two names are the same.
    pub fn same_as(&self, other: &SymbolId) -> (r: bool)
        ensures
            r == (self@ == other@),
    {
        self.0 == other.0
    }

    /// A copy of this name.
    pub fn duplicate(&self) -> (id: SymbolId)
        ensures
            id@ == self@,
    {
        SymbolId(self.0.clone())
    }
}

#[derive(Debug)]
pub struct SymbolTable(BTreeMap<SymbolId, Symbol>);

impl SymbolTable {
    /// The symbols of the table, by name.
    pub closed spec fn entries(&self) -> Map<SymbolId, Symbol> {
        self.0@
    }
}

impl core::ops::Deref for SymbolTable {
    type Target = BTreeMap<SymbolId, Symbol>;

    fn deref(&self) -> (m: &BTreeMap<SymbolId, Symbol>)
        ensures
            m@ == self.entries(),
    {
        &self.0
    }
}

impl core::ops::DerefMut for SymbolTable {
    fn deref_mut(&mut self) -> (m: &mut BTreeMap<SymbolId, Symbol>)
        ensures
            (*m)@ == old(self).entries(),
            final(m)@ == final(self).entries(),
    {
        &mut self.0
    }
}

impl Default for SymbolTable {
    fn default() -> (t: Self)
        ensures
            t.entries() == Map::<SymbolId, Symbol>::empty(),
    {
        SymbolTable(BTreeMap::new())
    }
}

} // verus!
