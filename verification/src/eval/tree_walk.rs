use vstd::prelude::*;

use crate::text::ascii_chars;
use crate::text::debug_str;
use crate::text::debug_text;
use crate::text::push_int_chars;
use crate::text::int_text;
use crate::text::push_int_text;
use crate::parser::ast::Assignment;
use crate::parser::ast::Expr;
use crate::parser::ast::ExprKind;
use crate::parser::ast::LValue;
use crate::parser::ast::Line;
use crate::parser::ast::PrintStatement;
use crate::parser::ast::Program;
use crate::parser::ast::SpecExpr;
use crate::parser::ast::SpecExprKind;
use crate::parser::ast::SpecLine;
use crate::parser::ast::SpecStatement;
use crate::parser::ast::Statement;
use crate::parser::ast::SymbolId;
use crate::tokenizer::token::span_debug;
use crate::tokenizer::Span;

verus! {

#[derive(Debug, Clone, PartialEq)]
pub enum Value {
    Int64(i64),
}

/// The text of a value as it is printed.
pub open spec fn value_text(v: Value) -> Seq<u8> {
    match v {
        Value::Int64(n) => int_text(n as int),
    }
}

impl Value {
    /// The text of this value as it is printed.
    pub fn to_text(&self) -> (s: String)
        ensures
            s@ == ascii_chars(value_text(*self)),
    {
        let mut s = String::new();
        match self {
            Value::Int64(n) => push_int_chars(*n, &mut s),
        }
        s
    }
}

#[derive(Debug, PartialEq, Eq)]
pub struct EvalError {
    pub msg: String,
}

pub type EvalResult<T> = Result<T, EvalError>;

impl EvalError {
    pub fn new(msg: &str) -> (e: Self)
        ensures
            e.msg@ == msg@,
    {
        Self { msg: msg.to_owned() }
    }
}

/// What a failed evaluation reports, or nothing on success.
pub open spec fn lift_eval<T>(r: EvalResult<T>) -> Result<(), Seq<char>> {
    match r {
        Ok(_) => Ok(()),
        Err(e) => Err(e.msg@),
    }
}

/// The state of an evaluation: the variables and everything printed so far.
pub struct Machine {
    pub env: Map<Seq<char>, Value>,
    pub out: Seq<u8>,
}

/// The message for a variable that is read before it is assigned.
pub open spec fn undefined_message(name: Seq<char>, span: Span) -> Seq<char> {
    "Identifier SymbolId("@ + debug_text(name) + ") not defined, at "@ + span_debug(span)
}

fn undefined_message_text(id: &SymbolId, span: Span) -> (s: String)
    ensures
        s@ == undefined_message(id@, span),
{
    let mut s = String::from_str("Identifier SymbolId(");
    let d = debug_str(id.as_str());
    s.append(d.as_str());
    s.append(") not defined, at ");
    span.push_debug(&mut s);
    assert(s@ =~= undefined_message(id@, span));
    s
}

/// The value of an expression in `env`.
pub open spec fn eval_expr_spec(env: Map<Seq<char>, Value>, e: SpecExpr) -> Result<
    Value,
    Seq<char>,
> {
    match e.kind {
        SpecExprKind::Int64(v) => Ok(Value::Int64(v)),
        SpecExprKind::Identifier(name) => if env.contains_key(name) {
            Ok(env[name])
        } else {
            Err(undefined_message(name, e.span))
        },
    }
}

/// Printing the arguments after the first: each is preceded by a space,
/// written before the argument is evaluated; a newline ends the output.
pub open spec fn print_rest_spec(env: Map<Seq<char>, Value>, out: Seq<u8>, args: Seq<SpecExpr>) -> (
    Seq<u8>,
    Result<(), Seq<char>>,
)
    decreases args.len(),
{
    if args.len() == 0 {
        (out.push(10), Ok(()))
    } else {
        let out1 = out.push(32);
        match eval_expr_spec(env, args[0]) {
            Ok(v) => print_rest_spec(env, out1 + value_text(v), args.drop_first()),
            Err(m) => (out1, Err(m)),
        }
    }
}

/// Printing a list of arguments: their texts separated by single spaces,
/// then a newline. An argument that fails stops the output where it stands.
pub open spec fn print_args_spec(env: Map<Seq<char>, Value>, out: Seq<u8>, args: Seq<SpecExpr>) -> (
    Seq<u8>,
    Result<(), Seq<char>>,
) {
    if args.len() == 0 {
        (out.push(10), Ok(()))
    } else {
        match eval_expr_spec(env, args[0]) {
            Ok(v) => print_rest_spec(env, out + value_text(v), args.drop_first()),
            Err(m) => (out, Err(m)),
        }
    }
}

/// Running one statement.
pub open spec fn run_statement(m: Machine, s: SpecStatement) -> (Machine, Result<(), Seq<char>>) {
    match s {
        SpecStatement::Print(args) => {
            let (out, r) = print_args_spec(m.env, m.out, args);
            (Machine { env: m.env, out }, r)
        },
        SpecStatement::Assign(name, e) => match eval_expr_spec(m.env, e) {
            Ok(v) => (Machine { env: m.env.insert(name, v), out: m.out }, Ok(())),
            Err(msg) => (m, Err(msg)),
        },
    }
}

/// Running statements in order, stopping at the first that fails.
pub open spec fn run_statements(m: Machine, stmts: Seq<SpecStatement>) -> (
    Machine,
    Result<(), Seq<char>>,
)
    decreases stmts.len(),
{
    if stmts.len() == 0 {
        (m, Ok(()))
    } else {
        match run_statement(m, stmts[0]) {
            (m1, Ok(_)) => run_statements(m1, stmts.drop_first()),
            (m1, Err(e)) => (m1, Err(e)),
        }
    }
}

/// Running lines in order, stopping at the first statement that fails.
pub open spec fn run_lines(m: Machine, lines: Seq<SpecLine>) -> (Machine, Result<(), Seq<char>>)
    decreases lines.len(),
{
    if lines.len() == 0 {
        (m, Ok(()))
    } else {
        match run_statements(m, lines[0].statements) {
            (m1, Ok(_)) => run_lines(m1, lines.drop_first()),
            (m1, Err(e)) => (m1, Err(e)),
        }
    }
}

/// The texts of `vs`, each preceded by a space.
pub open spec fn spaced_texts(vs: Seq<Value>) -> Seq<u8>
    decreases vs.len(),
{
    if vs.len() == 0 {
        Seq::empty()
    } else {
        seq![32u8] + value_text(vs[0]) + spaced_texts(vs.drop_first())
    }
}

/// The line that `PRINT` writes for the values `vs`: their texts separated
/// by single spaces, then a newline.
pub open spec fn printed_line(vs: Seq<Value>) -> Seq<u8> {
    if vs.len() == 0 {
        seq![10u8]
    } else {
        value_text(vs[0]) + spaced_texts(vs.drop_first()) + seq![10u8]
    }
}

proof fn lemma_print_rest_values(
    env: Map<Seq<char>, Value>,
    out: Seq<u8>,
    args: Seq<SpecExpr>,
    vs: Seq<Value>,
)
    requires
        args.len() == vs.len(),
        forall|i: int| 0 <= i < args.len() ==> eval_expr_spec(env, #[trigger] args[i]) == Ok::<
            Value,
            Seq<char>,
        >(vs[i]),
    ensures
        print_rest_spec(env, out, args) == (out + spaced_texts(vs) + seq![10u8], Ok::<
            (),
            Seq<char>,
        >(())),
    decreases args.len(),
{
    if args.len() == 0 {
        assert(out + spaced_texts(vs) + seq![10u8] =~= out.push(10));
    } else {
        let out1 = out.push(32);
        assert(eval_expr_spec(env, args[0]) == Ok::<Value, Seq<char>>(vs[0]));
        assert forall|i: int| 0 <= i < args.drop_first().len() implies eval_expr_spec(
            env,
            #[trigger] args.drop_first()[i],
        ) == Ok::<Value, Seq<char>>(vs.drop_first()[i]) by {
            assert(args.drop_first()[i] == args[i + 1]);
        }
        lemma_print_rest_values(env, out1 + value_text(vs[0]), args.drop_first(), vs.drop_first());
        assert(out1 + value_text(vs[0]) + spaced_texts(vs.drop_first()) + seq![10u8] =~= out
            + spaced_texts(vs) + seq![10u8]);
    }
}

/// `PRINT` of arguments whose values are `vs` appends `printed_line(vs)`
/// to the output and succeeds.
pub proof fn lemma_print_values(
    env: Map<Seq<char>, Value>,
    out: Seq<u8>,
    args: Seq<SpecExpr>,
    vs: Seq<Value>,
)
    requires
        args.len() == vs.len(),
        forall|i: int| 0 <= i < args.len() ==> eval_expr_spec(env, #[trigger] args[i]) == Ok::<
            Value,
            Seq<char>,
        >(vs[i]),
    ensures
        print_args_spec(env, out, args) == (out + printed_line(vs), Ok::<(), Seq<char>>(())),
{
    if args.len() == 0 {
        assert(out + printed_line(vs) =~= out.push(10));
    } else {
        assert(eval_expr_spec(env, args[0]) == Ok::<Value, Seq<char>>(vs[0]));
        assert forall|i: int| 0 <= i < args.drop_first().len() implies eval_expr_spec(
            env,
            #[trigger] args.drop_first()[i],
        ) == Ok::<Value, Seq<char>>(vs.drop_first()[i]) by {
            assert(args.drop_first()[i] == args[i + 1]);
        }
        lemma_print_rest_values(env, out + value_text(vs[0]), args.drop_first(), vs.drop_first());
        assert(out + value_text(vs[0]) + spaced_texts(vs.drop_first()) + seq![10u8] =~= out
            + printed_line(vs));
    }
}

/// An integer literal evaluates to its own value, whatever the variables.
pub proof fn lemma_int_literal_eval(env: Map<Seq<char>, Value>, span: Span, v: i64)
    ensures
        eval_expr_spec(env, SpecExpr { span, kind: SpecExprKind::Int64(v) }) == Ok::<
            Value,
            Seq<char>,
        >(Value::Int64(v)),
{
}

/// `PRINT` of integer literals `v0, v1, ...` appends `v0 v1 ...` in decimal
/// and a newline, and changes no variable.
pub proof fn lemma_print_literals(m: Machine, args: Seq<SpecExpr>, vs: Seq<i64>)
    requires
        args.len() == vs.len(),
        forall|i: int| 0 <= i < args.len() ==> (#[trigger] args[i]).kind == SpecExprKind::Int64(
            vs[i],
        ),
    ensures
        run_statement(m, SpecStatement::Print(args)) == (
            Machine {
                env: m.env,
                out: m.out + printed_line(vs.map_values(|v: i64| Value::Int64(v))),
            },
            Ok::<(), Seq<char>>(()),
        ),
{
    let values = vs.map_values(|v: i64| Value::Int64(v));
    assert forall|i: int| 0 <= i < args.len() implies eval_expr_spec(m.env, #[trigger] args[i])
        == Ok::<Value, Seq<char>>(values[i]) by {
        lemma_int_literal_eval(m.env, args[i].span, vs[i]);
    }
    lemma_print_values(m.env, m.out, args, values);
}

/// Assigning an integer literal and then reading the variable gives the
/// literal's value.
pub proof fn lemma_assign_literal_then_read(
    m: Machine,
    name: Seq<char>,
    span: Span,
    v: i64,
    read_span: Span,
)
    ensures
        ({
            let (m1, r) = run_statement(
                m,
                SpecStatement::Assign(name, SpecExpr { span, kind: SpecExprKind::Int64(v) }),
            );
            &&& r == Ok::<(), Seq<char>>(())
            &&& m1.out == m.out
            &&& eval_expr_spec(
                m1.env,
                SpecExpr { span: read_span, kind: SpecExprKind::Identifier(name) },
            ) == Ok::<Value, Seq<char>>(Value::Int64(v))
        }),
{
    lemma_int_literal_eval(m.env, span, v);
    lemma_read_after_assign(m, name, SpecExpr { span, kind: SpecExprKind::Int64(v) }, read_span, Value::Int64(v));
}

/// A variable that was just assigned reads back the value assigned to it;
/// the assignment prints nothing.
pub proof fn lemma_read_after_assign(m: Machine, name: Seq<char>, e: SpecExpr, span: Span, v: Value)
    requires
        eval_expr_spec(m.env, e) == Ok::<Value, Seq<char>>(v),
    ensures
        ({
            let (m1, r) = run_statement(m, SpecStatement::Assign(name, e));
            &&& r == Ok::<(), Seq<char>>(())
            &&& m1.out == m.out
            &&& eval_expr_spec(
                m1.env,
                SpecExpr { span, kind: SpecExprKind::Identifier(name) },
            ) == Ok::<Value, Seq<char>>(v)
        }),
{
}

/// `PRINT` leaves the variables as they are.
pub proof fn lemma_print_keeps_env(m: Machine, args: Seq<SpecExpr>)
    ensures
        run_statement(m, SpecStatement::Print(args)).0.env == m.env,
{
}

proof fn lemma_print_rest_grows(env: Map<Seq<char>, Value>, out: Seq<u8>, args: Seq<SpecExpr>)
    ensures
        out.len() <= print_rest_spec(env, out, args).0.len(),
        print_rest_spec(env, out, args).0.subrange(0, out.len() as int) == out,
    decreases args.len(),
{
    if args.len() == 0 {
        assert(out.push(10).subrange(0, out.len() as int) =~= out);
    } else {
        let out1 = out.push(32);
        match eval_expr_spec(env, args[0]) {
            Ok(v) => {
                let out2 = out1 + value_text(v);
                lemma_print_rest_grows(env, out2, args.drop_first());
                let r = print_rest_spec(env, out2, args.drop_first()).0;
                assert(r.subrange(0, out.len() as int) =~= r.subrange(
                    0,
                    out2.len() as int,
                ).subrange(0, out.len() as int));
                assert(out2.subrange(0, out.len() as int) =~= out);
            },
            Err(_) => {
                assert(out1.subrange(0, out.len() as int) =~= out);
            },
        }
    }
}

proof fn lemma_statement_grows(m: Machine, s: SpecStatement)
    ensures
        m.out.len() <= run_statement(m, s).0.out.len(),
        run_statement(m, s).0.out.subrange(0, m.out.len() as int) == m.out,
{
    match s {
        SpecStatement::Print(args) => {
            if args.len() == 0 {
                assert(m.out.push(10).subrange(0, m.out.len() as int) =~= m.out);
            } else {
                match eval_expr_spec(m.env, args[0]) {
                    Ok(v) => {
                        let out1 = m.out + value_text(v);
                        lemma_print_rest_grows(m.env, out1, args.drop_first());
                        let r = print_rest_spec(m.env, out1, args.drop_first()).0;
                        assert(r.subrange(0, m.out.len() as int) =~= r.subrange(
                            0,
                            out1.len() as int,
                        ).subrange(0, m.out.len() as int));
                        assert(out1.subrange(0, m.out.len() as int) =~= m.out);
                    },
                    Err(_) => {
                        assert(m.out.subrange(0, m.out.len() as int) =~= m.out);
                    },
                }
            }
        },
        SpecStatement::Assign(name, e) => {
            assert(m.out.subrange(0, m.out.len() as int) =~= m.out);
        },
    }
}

proof fn lemma_statements_grow(m: Machine, stmts: Seq<SpecStatement>)
    ensures
        m.out.len() <= run_statements(m, stmts).0.out.len(),
        run_statements(m, stmts).0.out.subrange(0, m.out.len() as int) == m.out,
    decreases stmts.len(),
{
    if stmts.len() == 0 {
        assert(m.out.subrange(0, m.out.len() as int) =~= m.out);
    } else {
        lemma_statement_grows(m, stmts[0]);
        let m1 = run_statement(m, stmts[0]).0;
        if run_statement(m, stmts[0]).1 is Ok {
            lemma_statements_grow(m1, stmts.drop_first());
            let r = run_statements(m1, stmts.drop_first()).0.out;
            assert(r.subrange(0, m.out.len() as int) =~= r.subrange(
                0,
                m1.out.len() as int,
            ).subrange(0, m.out.len() as int));
        }
    }
}

/// Running lines only appends to the output: what was printed before stays.
pub proof fn lemma_output_grows(m: Machine, lines: Seq<SpecLine>)
    ensures
        m.out.len() <= run_lines(m, lines).0.out.len(),
        run_lines(m, lines).0.out.subrange(0, m.out.len() as int) == m.out,
    decreases lines.len(),
{
    if lines.len() == 0 {
        assert(m.out.subrange(0, m.out.len() as int) =~= m.out);
    } else {
        lemma_statements_grow(m, lines[0].statements);
        let m1 = run_statements(m, lines[0].statements).0;
        if run_statements(m, lines[0].statements).1 is Ok {
            lemma_output_grows(m1, lines.drop_first());
            let r = run_lines(m1, lines.drop_first()).0.out;
            assert(r.subrange(0, m.out.len() as int) =~= r.subrange(
                0,
                m1.out.len() as int,
            ).subrange(0, m.out.len() as int));
        }
    }
}

/// Running two programs one after the other is running their lines in
/// sequence; when the first fails, the second does not run.
pub proof fn lemma_run_lines_append(m: Machine, l1: Seq<SpecLine>, l2: Seq<SpecLine>)
    ensures
        run_lines(m, l1 + l2) == (match run_lines(m, l1) {
            (m1, Ok(_)) => run_lines(m1, l2),
            (m1, Err(e)) => (m1, Err(e)),
        }),
    decreases l1.len(),
{
    if l1.len() == 0 {
        assert(l1 + l2 =~= l2);
    } else {
        assert((l1 + l2)[0] == l1[0]);
        assert((l1 + l2).drop_first() =~= l1.drop_first() + l2);
        let m1 = run_statements(m, l1[0].statements).0;
        lemma_run_lines_append(m1, l1.drop_first(), l2);
    }
}

/// Whether the variable `name` is bound at index `i` of `env`.
pub open spec fn binds(env: Seq<(SymbolId, Value)>, i: int, name: Seq<char>) -> bool {
    0 <= i < env.len() && env[i].0@ == name
}

/// A tree-walking evaluator that prints into the byte buffer `writer`.
pub struct Evaluator<'w> {
    writer: &'w mut Vec<u8>,
    env: Vec<(SymbolId, Value)>,
}

impl<'w> Evaluator<'w> {
    /// The variables and their values.
    pub closed spec fn env_map(&self) -> Map<Seq<char>, Value> {
        Map::new(
            |k: Seq<char>| exists|i: int| binds(self.env@, i, k),
            |k: Seq<char>| self.env@[choose|i: int| binds(self.env@, i, k)].1,
        )
    }

    pub closed spec fn wf(&self) -> bool {
        forall|i: int, j: int|
            0 <= i < j < self.env@.len() ==> #[trigger] self.env@[i].0@ != #[trigger] self.env@[j].0@
    }

    /// The buffer that the evaluator prints into.
    pub closed spec fn writer(&self) -> &'w mut Vec<u8> {
        self.writer
    }

    /// Everything printed so far.
    pub open spec fn output(&self) -> Seq<u8> {
        (*self.writer())@
    }

    pub open spec fn machine(&self) -> Machine {
        Machine { env: self.env_map(), out: self.output() }
    }

    /// An evaluator with no variables that prints after what `writer` holds.
    pub fn new(writer: &'w mut Vec<u8>) -> (e: Self)
        ensures
            e.wf(),
            e.env_map() == Map::<Seq<char>, Value>::empty(),
            *e.writer() == *old(writer),
            *final(writer) == *final(e.writer()),
    {
        let e = Self { writer, env: Vec::new() };
        assert(e.env_map() =~= Map::<Seq<char>, Value>::empty());
        e
    }

    /// Ends the evaluation and hands back the buffer it printed into.
    pub fn into_writer(self) -> (w: &'w mut Vec<u8>)
        ensures
            *w == *self.writer(),
            *final(w) == *final(self.writer()),
    {
        self.writer
    }

    /// When an evaluator is dropped, the caller's buffer holds exactly what
    /// the evaluator printed into it.
    pub proof fn lemma_dropped(self)
        requires
            has_resolved(self),
        ensures
            *final(self.writer()) == *self.writer(),
    {
    }

    #[verifier::loop_isolation(false)]
    fn lookup(&self, id: &SymbolId) -> (r: Option<Value>)
        requires
            self.wf(),
        ensures
            r == if self.env_map().contains_key(id@) {
                Some(self.env_map()[id@])
            } else {
                None::<Value>
            },
    {
        let mut i: usize = 0;
        while i < self.env.len()
            invariant
                i <= self.env@.len(),
                forall|j: int| 0 <= j < i ==> self.env@[j].0@ != id@,
            decreases self.env@.len() - i,
        {
            if self.env[i].0.same_as(id) {
                assert(binds(self.env@, i as int, id@));
                let ghost c = choose|j: int| binds(self.env@, j, id@);
                assert(c == i);
                return match &self.env[i].1 {
                    Value::Int64(n) => Some(Value::Int64(*n)),
                };
            }
            i = i + 1;
        }
        None
    }

    #[verifier::loop_isolation(false)]
    fn bind(&mut self, id: SymbolId, value: Value)
        requires
            old(self).wf(),
        ensures
            final(self).wf(),
            final(self).env_map() == old(self).env_map().insert(id@, value),
            final(self).output() == old(self).output(),
            *final(final(self).writer()) == *final(old(self).writer()),
    {
        let ghost old_env = self.env@;
        let mut i: usize = 0;
        while i < self.env.len()
            invariant
                *self == *old(self),
                self.env@ == old_env,
                i <= old_env.len(),
                forall|j: int| 0 <= j < i ==> old_env[j].0@ != id@,
            decreases old_env.len() - i,
        {
            if self.env[i].0.same_as(&id) {
                let ghost name = id@;
                self.env.set(i, (id, value));
                assert forall|k: Seq<char>| #[trigger]
                    self.env_map().contains_key(k) == old(self).env_map().insert(
                        name,
                        value,
                    ).contains_key(k) by {
                    if binds(old_env, i as int, k) {
                        assert(binds(self.env@, i as int, k));
                    }
                    if exists|j: int| binds(old_env, j, k) {
                        let j = choose|j: int| binds(old_env, j, k);
                        assert(binds(self.env@, j, k));
                    }
                    if exists|j: int| binds(self.env@, j, k) {
                        let j = choose|j: int| binds(self.env@, j, k);
                        if j != i {
                            assert(binds(old_env, j, k));
                        }
                    }
                }
                assert forall|k: Seq<char>| #[trigger]
                    self.env_map().contains_key(k) implies self.env_map()[k] == old(
                        self,
                    ).env_map().insert(name, value)[k] by {
                    let j = choose|j: int| binds(self.env@, j, k);
                    if k == name {
                        assert(binds(self.env@, i as int, k));
                    } else {
                        assert(j != i);
                        assert(binds(old_env, j, k));
                        let j0 = choose|j: int| binds(old_env, j, k);
                        assert(binds(old_env, j0, k));
                        if j0 != j {
                            if j0 < j {
                                assert(old_env[j0].0@ != old_env[j].0@);
                            } else {
                                assert(old_env[j].0@ != old_env[j0].0@);
                            }
                        }
                    }
                }
                assert(self.env_map() =~= old(self).env_map().insert(name, value));
                return ;
            }
            i = i + 1;
        }
        let ghost name = id@;
        self.env.push((id, value));
        assert forall|k: Seq<char>| #[trigger]
            self.env_map().contains_key(k) == old(self).env_map().insert(name, value).contains_key(
                k,
            ) by {
            if exists|j: int| binds(old_env, j, k) {
                let j = choose|j: int| binds(old_env, j, k);
                assert(binds(self.env@, j, k));
            }
            if k == name {
                assert(binds(self.env@, old_env.len() as int, k));
            }
            if exists|j: int| binds(self.env@, j, k) {
                let j = choose|j: int| binds(self.env@, j, k);
                if j < old_env.len() {
                    assert(binds(old_env, j, k));
                }
            }
        }
        assert forall|k: Seq<char>| #[trigger]
            self.env_map().contains_key(k) implies self.env_map()[k] == old(self).env_map().insert(
                name,
                value,
            )[k] by {
            let j = choose|j: int| binds(self.env@, j, k);
            if k == name {
                assert(j == old_env.len());
            } else {
                assert(binds(old_env, j, k));
                let j0 = choose|j: int| binds(old_env, j, k);
                assert(binds(old_env, j0, k));
                if j0 != j {
                    if j0 < j {
                        assert(old_env[j0].0@ != old_env[j].0@);
                    } else {
                        assert(old_env[j].0@ != old_env[j0].0@);
                    }
                }
            }
        }
        assert(self.env_map() =~= old(self).env_map().insert(name, value));
    }

    fn write_value(&mut self, v: &Value)
        ensures
            final(self).output() == old(self).output() + value_text(*v),
            final(self).env_map() == old(self).env_map(),
            final(self).wf() == old(self).wf(),
            *final(final(self).writer()) == *final(old(self).writer()),
    {
        match v {
            Value::Int64(n) => push_int_text(*n, self.writer),
        }
    }

    fn write_byte(&mut self, b: u8)
        ensures
            final(self).output() == old(self).output().push(b),
            final(self).env_map() == old(self).env_map(),
            final(self).wf() == old(self).wf(),
            *final(final(self).writer()) == *final(old(self).writer()),
    {
        self.writer.push(b);
    }

    fn eval_statement(&mut self, stmt: &Statement) -> (r: EvalResult<()>)
        requires
            old(self).wf(),
        ensures
            final(self).wf(),
            *final(final(self).writer()) == *final(old(self).writer()),
            (final(self).machine(), lift_eval(r)) == run_statement(old(self).machine(), stmt@),
    {
        match stmt {
            Statement::Print(ps) => self.eval_print(ps),
            Statement::Assign(assign) => self.eval_assign(assign),
        }
    }

    fn eval_assign(&mut self, assign: &Assignment) -> (r: EvalResult<()>)
        requires
            old(self).wf(),
        ensures
            final(self).wf(),
            *final(final(self).writer()) == *final(old(self).writer()),
            (final(self).machine(), lift_eval(r)) == run_statement(
                old(self).machine(),
                SpecStatement::Assign(assign.lhs@, assign.rhs@),
            ),
    {
        match &assign.lhs {
            LValue::Identifier(id) => {
                let value = match self.eval_expr(&assign.rhs) {
                    Ok(v) => v,
                    Err(e) => {
                        return Err(e);
                    },
                };
                self.bind(id.duplicate(), value);
            },
        }
        Ok(())
    }

    #[verifier::loop_isolation(false)]
    fn eval_line(&mut self, line: &Line) -> (r: EvalResult<()>)
        requires
            old(self).wf(),
        ensures
            final(self).wf(),
            *final(final(self).writer()) == *final(old(self).writer()),
            (final(self).machine(), lift_eval(r)) == run_statements(
                old(self).machine(),
                line@.statements,
            ),
    {
        let ghost stmts = line@.statements;
        let mut i: usize = 0;
        assert(stmts.skip(0) =~= stmts);
        while i < line.statements.len()
            invariant
                self.wf(),
                *final(self.writer()) == *final(old(self).writer()),
                i <= line.statements@.len(),
                run_statements(self.machine(), stmts.skip(i as int)) == run_statements(
                    old(self).machine(),
                    stmts,
                ),
            decreases line.statements@.len() - i,
        {
            assert(stmts.skip(i as int)[0] == line.statements@[i as int]@);
            assert(stmts.skip(i as int).drop_first() =~= stmts.skip(i + 1));
            match self.eval_statement(&line.statements[i]) {
                Ok(_) => {},
                Err(e) => {
                    return Err(e);
                },
            }
            i = i + 1;
        }
        assert(stmts.skip(i as int) =~= Seq::<SpecStatement>::empty());
        Ok(())
    }

    /// Runs the lines of `prog` in order; the first statement that fails
    /// stops the run, and what was printed before it stays printed.
    #[verifier::loop_isolation(false)]
    pub fn eval_program(&mut self, prog: &Program) -> (r: EvalResult<()>)
        requires
            old(self).wf(),
        ensures
            final(self).wf(),
            *final(final(self).writer()) == *final(old(self).writer()),
            (final(self).machine(), lift_eval(r)) == run_lines(old(self).machine(), prog@),
    {
        let ghost lines = prog@;
        let mut i: usize = 0;
        assert(lines.skip(0) =~= lines);
        while i < prog.lines.len()
            invariant
                self.wf(),
                *final(self.writer()) == *final(old(self).writer()),
                i <= prog.lines@.len(),
                run_lines(self.machine(), lines.skip(i as int)) == run_lines(
                    old(self).machine(),
                    lines,
                ),
            decreases prog.lines@.len() - i,
        {
            assert(lines.skip(i as int)[0] == prog.lines@[i as int]@);
            assert(lines.skip(i as int).drop_first() =~= lines.skip(i + 1));
            match self.eval_line(&prog.lines[i]) {
                Ok(_) => {},
                Err(e) => {
                    return Err(e);
                },
            }
            i = i + 1;
        }
        assert(lines.skip(i as int) =~= Seq::<SpecLine>::empty());
        Ok(())
    }

    #[verifier::loop_isolation(false)]
    fn eval_print(&mut self, ps: &PrintStatement) -> (r: EvalResult<()>)
        requires
            old(self).wf(),
        ensures
            final(self).wf(),
            *final(final(self).writer()) == *final(old(self).writer()),
            (final(self).machine(), lift_eval(r)) == run_statement(
                old(self).machine(),
                SpecStatement::Print(ps@),
            ),
    {
        let args = ps.args().as_ref();
        let ghost sargs = ps@;
        let ghost env = self.env_map();
        assert(args@.map_values(|e: Expr| e@) == sargs);
        if args.len() > 0 {
            let head = match self.eval_expr(&args[0]) {
                Ok(v) => v,
                Err(e) => {
                    return Err(e);
                },
            };
            self.write_value(&head);
            let mut i: usize = 1;
            assert(sargs.drop_first() =~= sargs.skip(1));
            while i < args.len()
                invariant
                    self.wf(),
                    *final(self.writer()) == *final(old(self).writer()),
                    self.env_map() == env,
                    1 <= i <= args@.len(),
                    print_rest_spec(env, self.output(), sargs.skip(i as int)) == print_args_spec(
                        env,
                        old(self).output(),
                        sargs,
                    ),
                decreases args@.len() - i,
            {
                assert(sargs.skip(i as int)[0] == args@[i as int]@);
                assert(sargs.skip(i as int).drop_first() =~= sargs.skip(i + 1));
                self.write_byte(32);
                let v = match self.eval_expr(&args[i]) {
                    Ok(v) => v,
                    Err(e) => {
                        return Err(e);
                    },
                };
                self.write_value(&v);
                i = i + 1;
            }
            assert(sargs.skip(i as int) =~= Seq::<SpecExpr>::empty());
        }
        self.write_byte(10);
        Ok(())
    }

    fn eval_expr(&self, expr: &Expr) -> (r: EvalResult<Value>)
        requires
            self.wf(),
        ensures
            match r {
                Ok(v) => eval_expr_spec(self.env_map(), expr@) == Ok::<Value, Seq<char>>(v),
                Err(e) => eval_expr_spec(self.env_map(), expr@) == Err::<Value, Seq<char>>(e.msg@),
            },
    {
        match &expr.kind {
            ExprKind::Int64(val) => Ok(Value::Int64(*val)),
            ExprKind::Identifier(id) => match self.lookup(id) {
                Some(v) => Ok(v),
                None => Err(EvalError { msg: undefined_message_text(id, expr.span) }),
            },
        }
    }
}

} // verus!
