//! One pass of the reduction over a body: calls are inlined and loops with
//! literal bounds unrolled, in the order of the statements.

use crate::absy::{
    duplicate_statements, lemma_expression_view, lemma_for_view, Expression, ExpressionInner,
    ExpressionInnerView, ExpressionView, ProgramView, Statement, StatementView, TypedProgram,
    Variable, VariableView,
};
use crate::embed::embed_key;
use crate::error::{Error, ErrorView};
use crate::identifier::{CoreIdentifier, CoreIdentifierView, Identifier, IdentifierView};
use crate::laws::loops::{lemma_loops_concat, lemma_reduce_statement_pending};
use crate::inline::{
    inline_call, inlining, CacheView, CallCache, InlineError, InlineErrorView, Inlined,
};
use crate::model::{duplicate_all, views, Modelled};
use crate::render::key_text;
use crate::shallow_ssa::{
    lemma_ssa_statements_concat, shallow_start, ssa_statements, ShallowTransformer, ShallowView,
};
use crate::substitution::{registered, Substitutions, SubstitutionsView};
use crate::types::{FunctionKey, FunctionKeyView, Type, TypeView, UBitwidth};
use crate::versions::{can_shift, next_version, shifted, Versions, VersionsView};
use crate::Output;
use vstd::prelude::*;

verus! {

/// Mathematical model of a [`Reducer`].
pub struct ReducerView {
    /// The program that calls are resolved in.
    pub program: ProgramView,
    /// The statements that the expressions folded so far need before them.
    pub buffer: Seq<StatementView>,
    /// The versions before each loop of the body that is still to come, the
    /// next loop first.
    pub pending: Seq<VersionsView>,
    /// The versions before each loop of the body that this pass leaves.
    pub after: Seq<VersionsView>,
    pub versions: VersionsView,
    pub substitutions: SubstitutionsView,
    pub cache: CacheView,
    /// Whether no loop and no call is left so far.
    pub complete: bool,
}

/// The reducer at the start of a pass.
pub open spec fn reducer_start(
    program: ProgramView,
    versions: VersionsView,
    substitutions: SubstitutionsView,
    pending: Seq<VersionsView>,
) -> ReducerView {
    ReducerView {
        program,
        buffer: Seq::empty(),
        pending,
        after: Seq::empty(),
        versions,
        substitutions,
        cache: Seq::empty(),
        complete: true,
    }
}

/// The reducer after a call was inlined: what the inlined statements leave
/// is recorded, and the cache and the versions are those after the call.
pub open spec fn absorb(st: ReducerView, inlined: Inlined, cache: CacheView, versions: VersionsView)
    -> ReducerView {
    ReducerView {
        after: match inlined.backups {
            Some(b) => st.after + b,
            None => st.after,
        },
        complete: st.complete && inlined.backups is None,
        cache,
        versions,
        ..st
    }
}

/// A call expression.
pub open spec fn call_expression(key: FunctionKeyView, args: Seq<ExpressionView>, ty: TypeView)
    -> ExpressionView {
    ExpressionView { ty, inner: ExpressionInnerView::FunctionCall(key, args) }
}

/// A read of a variable.
pub open spec fn read_of(v: VariableView) -> ExpressionView {
    ExpressionView { ty: v.ty, inner: ExpressionInnerView::Identifier(v.id) }
}

/// What stands for a call inside an expression, once its arguments are
/// folded, and the reducer after it.
///
/// - Inlined: the statements go to the buffer, and the expression is the
///   one that holds the result.
/// - Handed back: the call stays, and the pass is not complete.
/// - A primitive: a call statement that assigns to a new version of the
///   first result slot goes to the buffer, and the expression reads it.
/// - Concrete types that do not match the declaration are an error.
pub open spec fn reduce_call(
    st: ReducerView,
    key: FunctionKeyView,
    args: Seq<ExpressionView>,
    ty: TypeView,
) -> Result<(ReducerView, ExpressionView), ErrorView> {
    let o = inlining(key, args, seq![ty], st.program, st.cache, st.versions);
    match o.result {
        Ok(inlined) => Ok(
            (
                ReducerView {
                    buffer: st.buffer + inlined.statements,
                    ..absorb(st, inlined, o.cache, o.versions)
                },
                inlined.expressions[0],
            ),
        ),
        Err(InlineErrorView::Generic(d, c)) => Err(
            ErrorView::Incompatible(key_text(d), key_text(c)),
        ),
        Err(InlineErrorView::NonConstant(k, a, _)) => Ok(
            (
                ReducerView { complete: false, cache: o.cache, versions: o.versions, ..st },
                call_expression(k, a, ty),
            ),
        ),
        Err(InlineErrorView::Flat(embed, a, t)) => {
            let id = CoreIdentifierView::Call(0);
            match next_version(o.versions, id) {
                None => Err(ErrorView::Exhausted),
                Some(n) => {
                    let var = VariableView { id: IdentifierView { id, version: n }, ty };
                    Ok(
                        (
                            ReducerView {
                                buffer: st.buffer.push(
                                    StatementView::MultipleDefinition(
                                        seq![var],
                                        embed_key(embed, st.program.main),
                                        a,
                                        t,
                                    ),
                                ),
                                cache: o.cache,
                                versions: o.versions.insert(id, n),
                                ..st
                            },
                            read_of(var),
                        ),
                    )
                },
            }
        },
        Err(InlineErrorView::Exhausted) => Err(ErrorView::Exhausted),
    }
}

/// An expression with the calls in it folded, from left to right and from
/// the inside out, and the reducer after it.
pub open spec fn reduce_expression(st: ReducerView, e: ExpressionView) -> Result<
    (ReducerView, ExpressionView),
    ErrorView,
>
    decreases e,
{
    match e.inner {
        ExpressionInnerView::FunctionCall(key, args) => match reduce_expressions(st, args) {
            Err(x) => Err(x),
            Ok((st1, args1)) => reduce_call(st1, key, args1, e.ty),
        },
        ExpressionInnerView::Values(es) => match reduce_expressions(st, es) {
            Err(x) => Err(x),
            Ok((st1, es1)) => Ok(
                (st1, ExpressionView { ty: e.ty, inner: ExpressionInnerView::Values(es1) }),
            ),
        },
        ExpressionInnerView::Operation(op, es) => match reduce_expressions(st, es) {
            Err(x) => Err(x),
            Ok((st1, es1)) => Ok(
                (st1, ExpressionView { ty: e.ty, inner: ExpressionInnerView::Operation(op, es1) }),
            ),
        },
        _ => Ok((st, e)),
    }
}

/// The expressions of a sequence folded one after the other.
pub open spec fn reduce_expressions(st: ReducerView, es: Seq<ExpressionView>) -> Result<
    (ReducerView, Seq<ExpressionView>),
    ErrorView,
>
    decreases es,
{
    if es.len() == 0 {
        Ok((st, Seq::empty()))
    } else {
        match reduce_expressions(st, es.drop_last()) {
            Err(x) => Err(x),
            Ok((st1, out)) => match reduce_expression(st1, es.last()) {
                Err(x) => Err(x),
                Ok((st2, e)) => Ok((st2, out.push(e))),
            },
        }
    }
}

/// Folding two sequences of expressions one after the other is folding
/// them as one.
pub proof fn lemma_reduce_expressions_concat(
    st: ReducerView,
    a: Seq<ExpressionView>,
    b: Seq<ExpressionView>,
)
    ensures
        reduce_expressions(st, a + b) == (match reduce_expressions(st, a) {
            Err(x) => Err(x),
            Ok((st1, o1)) => match reduce_expressions(st1, b) {
                Err(x) => Err(x),
                Ok((st2, o2)) => Ok((st2, o1 + o2)),
            },
        }),
    decreases b.len(),
{
    if b.len() == 0 {
        assert(a + b =~= a);
        match reduce_expressions(st, a) {
            Err(_) => {},
            Ok((st1, o1)) => {
                assert(o1 + Seq::<ExpressionView>::empty() =~= o1);
            },
        }
    } else {
        assert((a + b).drop_last() =~= a + b.drop_last());
        assert((a + b).last() == b.last());
        lemma_reduce_expressions_concat(st, a, b.drop_last());
        match reduce_expressions(st, a) {
            Err(_) => {},
            Ok((st1, o1)) => {
                match reduce_expressions(st1, b.drop_last()) {
                    Err(_) => {},
                    Ok((st2, o2)) => {
                        match reduce_expression(st2, b.last()) {
                            Err(_) => {},
                            Ok((st3, e)) => {
                                assert((o1 + o2).push(e) =~= o1 + o2.push(e));
                            },
                        }
                    },
                }
            },
        }
    }
}

/// The literal that the loop variable holds in one round of a loop: the
/// index, as a number of 32 bits.
pub open spec fn index_literal(index: u128) -> ExpressionView {
    ExpressionView {
        ty: TypeView::Uint(UBitwidth::B32),
        inner: ExpressionInnerView::Value(index),
    }
}

/// The bounds of a loop that can be unrolled: both are literals that a
/// number of 32 bits holds, as the loop variable is one.
pub open spec fn literal_bounds(from: ExpressionView, to: ExpressionView) -> Option<(u128, u128)> {
    match (from.inner, to.inner) {
        (ExpressionInnerView::Value(lo), ExpressionInnerView::Value(hi)) => if lo <= u32::MAX
            && hi <= u32::MAX {
            Some((lo, hi))
        } else {
            None
        },
        _ => None,
    }
}

/// The rounds of a loop from `from` up to, and not including, `to`: for
/// each index in turn, the definition of the loop variable as that index
/// and then the body, in shallow single-assignment form.
pub open spec fn unroll(
    t: ShallowView,
    v: VariableView,
    from: u128,
    to: u128,
    body: Seq<StatementView>,
) -> Option<(ShallowView, Seq<StatementView>)>
    decreases to,
{
    if from >= to {
        Some((t, Seq::empty()))
    } else {
        match unroll(t, v, from, (to - 1) as u128, body) {
            None => None,
            Some((t1, out)) => match ssa_statements(
                t1,
                seq![StatementView::Definition(v, index_literal((to - 1) as u128))] + body,
            ) {
                None => None,
                Some((t2, round)) => Some((t2, out + round)),
            },
        }
    }
}

/// The definitions that assign the results of an inlined call to the
/// variables of the call statement.
pub open spec fn result_definitions(vars: Seq<VariableView>, results: Seq<ExpressionView>) -> Seq<
    StatementView,
> {
    Seq::new(vars.len(), |i: int| StatementView::Definition(vars[i], results[i]))
}

/// What a call statement becomes, once its arguments are folded, and the
/// reducer after it.
///
/// - Inlined: the inlined statements, then one definition for each
///   variable of the statement. Where there are not as many variables as
///   results, the results cannot be assigned: the statement stays after the
///   inlined statements, and the pass is not complete.
/// - Handed back: the statement stays, and the pass is not complete.
/// - A primitive: the statement stays, with the key of the primitive in
///   the entry module.
/// - Concrete types that do not match the declaration are an error.
pub open spec fn reduce_call_statement(
    st: ReducerView,
    vars: Seq<VariableView>,
    key: FunctionKeyView,
    args: Seq<ExpressionView>,
    types: Seq<TypeView>,
) -> Result<(ReducerView, Seq<StatementView>), ErrorView> {
    let o = inlining(key, args, types, st.program, st.cache, st.versions);
    match o.result {
        Ok(inlined) => if vars.len() == inlined.expressions.len() {
            Ok(
                (
                    absorb(st, inlined, o.cache, o.versions),
                    inlined.statements + result_definitions(vars, inlined.expressions),
                ),
            )
        } else {
            Ok(
                (
                    ReducerView { complete: false, ..absorb(st, inlined, o.cache, o.versions) },
                    inlined.statements + seq![
                        StatementView::MultipleDefinition(vars, key, args, types),
                    ],
                ),
            )
        },
        Err(InlineErrorView::Generic(d, c)) => Err(
            ErrorView::Incompatible(key_text(d), key_text(c)),
        ),
        Err(InlineErrorView::NonConstant(k, a, t)) => Ok(
            (
                ReducerView { complete: false, cache: o.cache, versions: o.versions, ..st },
                seq![StatementView::MultipleDefinition(vars, k, a, t)],
            ),
        ),
        Err(InlineErrorView::Flat(embed, a, t)) => Ok(
            (
                ReducerView { cache: o.cache, versions: o.versions, ..st },
                seq![
                    StatementView::MultipleDefinition(vars, embed_key(embed, st.program.main), a, t),
                ],
            ),
        ),
        Err(InlineErrorView::Exhausted) => Err(ErrorView::Exhausted),
    }
}

/// What a loop becomes, and the reducer after it.
///
/// The loop takes the first of the pending versions as the versions before
/// it; a reducer that meets a loop holds some. With bounds that are literals
/// of 32 bits it is unrolled: every version is raised by one, these raised
/// versions are rewritten to the versions before the loop, the rounds are
/// transformed from there, and the versions before the loop raised by two
/// are rewritten to the versions after the last round. With other bounds the
/// loop stays, its versions are recorded for the next pass, and the pass is
/// not complete.
pub open spec fn reduce_loop(
    st: ReducerView,
    v: VariableView,
    from: ExpressionView,
    to: ExpressionView,
    body: Seq<StatementView>,
) -> Result<(ReducerView, Seq<StatementView>), ErrorView> {
    let before = st.pending.first();
    let pending = st.pending.drop_first();
    match literal_bounds(from, to) {
        Some((lo, hi)) => {
            if !can_shift(st.versions, 1) || !can_shift(before, 2) {
                Err(ErrorView::Exhausted)
            } else {
                let now = shifted(st.versions, 1);
                let s1 = registered(st.substitutions, now, before);
                match unroll(shallow_start(now), v, lo, hi, body) {
                    None => Err(ErrorView::Exhausted),
                    Some((t, out)) => Ok(
                        (
                            ReducerView {
                                pending,
                                after: st.after + t.backups,
                                versions: t.versions,
                                substitutions: registered(s1, shifted(before, 2), t.versions),
                                complete: st.complete && !t.blocked,
                                ..st
                            },
                            out,
                        ),
                    ),
                }
            }
        },
        None => Ok(
            (
                ReducerView { pending, after: st.after.push(before), complete: false, ..st },
                seq![StatementView::For(v, from, to, body)],
            ),
        ),
    }
}

/// Whether the reducer holds the versions that a statement takes: those
/// before it, where it is a loop.
pub open spec fn supplied(st: ReducerView, s: StatementView) -> bool {
    s is For ==> st.pending.len() > 0
}

/// What a statement becomes before the buffer is put in front of it, and
/// the reducer after it.
pub open spec fn reduce_statement_inner(st: ReducerView, s: StatementView) -> Result<
    (ReducerView, Seq<StatementView>),
    ErrorView,
> {
    match s {
        StatementView::MultipleDefinition(vars, key, args, types) => match reduce_expressions(
            st,
            args,
        ) {
            Err(x) => Err(x),
            Ok((st1, args1)) => reduce_call_statement(st1, vars, key, args1, types),
        },
        StatementView::For(v, from, to, body) => reduce_loop(st, v, from, to, body),
        StatementView::Definition(v, e) => match reduce_expression(st, e) {
            Err(x) => Err(x),
            Ok((st1, e1)) => Ok((st1, seq![StatementView::Definition(v, e1)])),
        },
        StatementView::Return(es) => match reduce_expressions(st, es) {
            Err(x) => Err(x),
            Ok((st1, es1)) => Ok((st1, seq![StatementView::Return(es1)])),
        },
        StatementView::PushCallLog(_, _) => Ok((st, seq![s])),
        StatementView::PopCallLog => Ok((st, seq![s])),
    }
}

/// The statements that stand for one statement after the pass: what its
/// expressions put in the buffer, then what the statement itself became.
/// The buffer is empty afterwards.
pub open spec fn reduce_statement(st: ReducerView, s: StatementView) -> Result<
    (ReducerView, Seq<StatementView>),
    ErrorView,
> {
    match reduce_statement_inner(st, s) {
        Err(x) => Err(x),
        Ok((st1, out)) => Ok((ReducerView { buffer: Seq::empty(), ..st1 }, st1.buffer + out)),
    }
}

/// The statements of a body after the pass, from the first to the last.
pub open spec fn reduce_statements(st: ReducerView, body: Seq<StatementView>) -> Result<
    (ReducerView, Seq<StatementView>),
    ErrorView,
>
    decreases body.len(),
{
    if body.len() == 0 {
        Ok((st, Seq::empty()))
    } else {
        match reduce_statements(st, body.drop_last()) {
            Err(x) => Err(x),
            Ok((st1, out)) => match reduce_statement(st1, body.last()) {
                Err(x) => Err(x),
                Ok((st2, more)) => Ok((st2, out + more)),
            },
        }
    }
}

/// The number of loops among the statements of a body. Loops inside loops
/// do not count.
pub open spec fn loops(body: Seq<StatementView>) -> nat
    decreases body.len(),
{
    if body.len() == 0 {
        0
    } else if body.last() is For {
        loops(body.drop_last()) + 1
    } else {
        loops(body.drop_last())
    }
}

/// The number of loops that a statement is: one or none.
pub open spec fn loop_count(s: StatementView) -> nat {
    if s is For {
        1
    } else {
        0
    }
}

/// Where a pass fails on the first statements of a body, it fails on the
/// body.
pub proof fn lemma_reduce_statements_err(st: ReducerView, body: Seq<StatementView>, n: int)
    requires
        0 <= n <= body.len(),
        reduce_statements(st, body.take(n)) is Err,
    ensures
        reduce_statements(st, body) == reduce_statements(st, body.take(n)),
    decreases body.len(),
{
    if n < body.len() {
        assert(body.drop_last().take(n) =~= body.take(n));
        lemma_reduce_statements_err(st, body.drop_last(), n);
    } else {
        assert(body.take(n) =~= body);
    }
}

/// Where the first rounds of a loop cannot be transformed, neither can all
/// of them.
pub proof fn lemma_unroll_none(
    t: ShallowView,
    v: VariableView,
    from: u128,
    mid: u128,
    to: u128,
    body: Seq<StatementView>,
)
    requires
        from <= mid <= to,
        unroll(t, v, from, mid, body) is None,
    ensures
        unroll(t, v, from, to, body) is None,
    decreases to,
{
    if mid < to {
        lemma_unroll_none(t, v, from, mid, (to - 1) as u128, body);
    }
}

/// The state of one pass over a body.
pub struct Reducer<'a> {
    /// The statements that the expressions folded so far need before them.
    pub statement_buffer: Vec<Statement>,
    /// The versions before each loop of the body that is still to come, the
    /// next loop last.
    pub for_loop_versions: Vec<Versions>,
    /// The versions before each loop of the body that this pass leaves.
    pub for_loop_versions_after: Vec<Versions>,
    /// The program that calls are resolved in.
    pub program: &'a TypedProgram,
    pub versions: Versions,
    pub substitutions: Substitutions,
    pub cache: CallCache,
    /// Whether no loop and no call is left so far.
    pub complete: bool,
}

impl<'a> View for Reducer<'a> {
    type V = ReducerView;

    open spec fn view(&self) -> ReducerView {
        ReducerView {
            program: self.program@,
            buffer: views(self.statement_buffer@),
            pending: views(self.for_loop_versions@).reverse(),
            after: views(self.for_loop_versions_after@),
            versions: self.versions@,
            substitutions: self.substitutions@,
            cache: self.cache@,
            complete: self.complete,
        }
    }
}

impl<'a> Reducer<'a> {
    /// The reducer at the start of a pass over a body whose loops had the
    /// given versions before them, in the order of the loops.
    pub fn new(
        program: &'a TypedProgram,
        versions: Versions,
        substitutions: Substitutions,
        for_loop_versions: Vec<Versions>,
    ) -> (r: Reducer<'a>)
        ensures
            r@ == reducer_start(
                program@,
                versions@,
                substitutions@,
                views(for_loop_versions@),
            ),
    {
        let ghost all = views(for_loop_versions@);
        let mut input = for_loop_versions;
        let mut reversed: Vec<Versions> = Vec::new();
        while input.len() > 0
            invariant
                input@.len() + reversed@.len() == all.len(),
                forall|j: int| 0 <= j < input@.len() ==> (#[trigger] input@[j])@ == all[j],
                forall|j: int|
                    0 <= j < reversed@.len() ==> (#[trigger] reversed@[j])@ == all[all.len() - 1
                        - j],
            decreases input@.len(),
        {
            let v = input.pop().unwrap();
            reversed.push(v);
        }
        let r = Reducer {
            statement_buffer: Vec::new(),
            for_loop_versions_after: Vec::new(),
            for_loop_versions: reversed,
            cache: CallCache::new(),
            substitutions,
            program,
            versions,
            complete: true,
        };
        proof {
            assert(r@.pending =~= all);
            assert(r@.buffer =~= Seq::empty());
            assert(r@.after =~= Seq::empty());
        }
        r
    }

    /// Folds the call of a function with the given arguments, already
    /// folded, where one value of type `ty` is expected. After an error the
    /// reducer is spent.
    pub fn fold_function_call(&mut self, key: &FunctionKey, arguments: &Vec<Expression>, ty: &Type)
        -> (r: Result<Expression, Error>)
        ensures
            match reduce_call(old(self)@, key@, views(arguments@), ty@) {
                Err(x) => r is Err && r->Err_0@ == x,
                Ok((st, e)) => r is Ok && r->Ok_0@ == e && final(self)@ == st,
            },
    {
        let mut output_types: Vec<Type> = Vec::new();
        output_types.push(ty.duplicate());
        assert(views(output_types@) =~= seq![ty@]);
        let res = inline_call(
            key,
            arguments,
            &output_types,
            self.program,
            &mut self.cache,
            &mut self.versions,
        );
        let ghost buffer = views(self.statement_buffer@);
        let ghost after = views(self.for_loop_versions_after@);
        match res {
            Ok(Output::Complete((statements, expressions))) => {
                let mut statements = statements;
                let ghost more = views(statements@);
                self.statement_buffer.append(&mut statements);
                assert(views(self.statement_buffer@) =~= buffer + more);
                Ok(expressions[0].duplicate())
            },
            Ok(Output::Incomplete((statements, expressions), delta)) => {
                self.complete = false;
                let mut statements = statements;
                let mut delta = delta;
                let ghost more = views(statements@);
                let ghost backups = views(delta@);
                self.statement_buffer.append(&mut statements);
                self.for_loop_versions_after.append(&mut delta);
                assert(views(self.statement_buffer@) =~= buffer + more);
                assert(views(self.for_loop_versions_after@) =~= after + backups);
                Ok(expressions[0].duplicate())
            },
            Err(InlineError::Generic(decl, conc)) => Err(
                Error::Incompatible(decl.to_string(), conc.to_string()),
            ),
            Err(InlineError::NonConstant(key, arguments, _)) => {
                self.complete = false;
                let e = Expression {
                    ty: ty.duplicate(),
                    inner: ExpressionInner::FunctionCall(key, arguments),
                };
                proof {
                    lemma_expression_view(e);
                }
                Ok(e)
            },
            Err(InlineError::Flat(embed, arguments, output_types)) => {
                let id = CoreIdentifier::Call(0);
                match self.versions.fresh(&id) {
                    None => Err(Error::Exhausted),
                    Some(n) => {
                        let var = Variable {
                            id: Identifier { id, version: n },
                            ty: ty.duplicate(),
                        };
                        let e = Expression {
                            ty: ty.duplicate(),
                            inner: ExpressionInner::Identifier(var.id.duplicate()),
                        };
                        let mut vars: Vec<Variable> = Vec::new();
                        vars.push(var);
                        assert(views(vars@) =~= seq![var@]);
                        let st = Statement::MultipleDefinition(
                            vars,
                            embed.key_in_module(&self.program.main),
                            arguments,
                            output_types,
                        );
                        self.statement_buffer.push(st);
                        proof {
                            lemma_expression_view(e);
                            assert(views(self.statement_buffer@) =~= buffer.push(st@));
                        }
                        Ok(e)
                    },
                }
            },
            Err(InlineError::Exhausted) => Err(Error::Exhausted),
        }
    }

    /// Folds the calls in an expression. After an error the reducer is
    /// spent.
    pub fn fold_expression(&mut self, e: &Expression) -> (r: Result<Expression, Error>)
        ensures
            match reduce_expression(old(self)@, e@) {
                Err(x) => r is Err && r->Err_0@ == x,
                Ok((st, e1)) => r is Ok && r->Ok_0@ == e1 && final(self)@ == st,
            },
        decreases e, 1nat,
    {
        proof {
            lemma_expression_view(*e);
        }
        match &e.inner {
            ExpressionInner::FunctionCall(key, args) => {
                assert(decreases_to!(e => e.inner));
                assert(decreases_to!(e.inner => args));
                let args1 = self.fold_expressions(args)?;
                self.fold_function_call(key, &args1, &e.ty)
            },
            ExpressionInner::Values(es) => {
                assert(decreases_to!(e => e.inner));
                assert(decreases_to!(e.inner => es));
                let es1 = self.fold_expressions(es)?;
                let r = Expression { ty: e.ty.duplicate(), inner: ExpressionInner::Values(es1) };
                proof {
                    lemma_expression_view(r);
                }
                Ok(r)
            },
            ExpressionInner::Operation(op, es) => {
                assert(decreases_to!(e => e.inner));
                assert(decreases_to!(e.inner => es));
                let es1 = self.fold_expressions(es)?;
                let r = Expression {
                    ty: e.ty.duplicate(),
                    inner: ExpressionInner::Operation(*op, es1),
                };
                proof {
                    lemma_expression_view(r);
                }
                Ok(r)
            },
            _ => Ok(e.duplicate()),
        }
    }

    /// Folds the calls in the expressions of a list, one after the other.
    /// After an error the reducer is spent.
    pub fn fold_expressions(&mut self, es: &Vec<Expression>) -> (r: Result<
        Vec<Expression>,
        Error,
    >)
        ensures
            match reduce_expressions(old(self)@, views(es@)) {
                Err(x) => r is Err && r->Err_0@ == x,
                Ok((st, out)) => r is Ok && views(r->Ok_0@) == out && final(self)@ == st,
            },
        decreases es, 0nat,
    {
        let ghost start = self@;
        let ghost all = views(es@);
        let mut out: Vec<Expression> = Vec::new();
        let mut i: usize = 0;
        assert(all.take(0) =~= Seq::empty());
        assert(views(out@) =~= Seq::empty());
        while i < es.len()
            invariant
                i <= es.len(),
                all == views(es@),
                start == old(self)@,
                reduce_expressions(start, all.take(i as int)) == Ok::<
                    (ReducerView, Seq<ExpressionView>),
                    ErrorView,
                >((self@, views(out@))),
            decreases es.len() - i,
        {
            proof {
                assert(all.take(i + 1).drop_last() =~= all.take(i as int));
                assert(all.take(i + 1).last() == es@[i as int]@);
                assert(all =~= all.take(i + 1) + all.skip(i + 1));
                lemma_reduce_expressions_concat(start, all.take(i + 1), all.skip(i + 1));
            }
            assert(decreases_to!(es => es[i as int]));
            let ghost before = views(out@);
            match self.fold_expression(&es[i]) {
                Err(x) => {
                    return Err(x);
                },
                Ok(e) => {
                    out.push(e);
                    assert(views(out@) =~= before.push(e@));
                },
            }
            i += 1;
        }
        assert(all.take(es.len() as int) =~= all);
        Ok(out)
    }

    fn same_call(
        vars: &Vec<Variable>,
        key: &FunctionKey,
        args: &Vec<Expression>,
        types: &Vec<Type>,
    ) -> (r: Vec<Statement>)
        ensures
            views(r@) == seq![
                StatementView::MultipleDefinition(
                    views(vars@),
                    key@,
                    views(args@),
                    views(types@),
                ),
            ],
    {
        let mut out: Vec<Statement> = Vec::new();
        let st = Statement::MultipleDefinition(
            duplicate_all(vars),
            key.duplicate(),
            duplicate_all(args),
            duplicate_all(types),
        );
        out.push(st);
        assert(views(out@) =~= seq![st@]);
        out
    }

    fn define_results(vars: &Vec<Variable>, results: &Vec<Expression>) -> (r: Vec<Statement>)
        requires
            vars.len() == results.len(),
        ensures
            views(r@) == result_definitions(views(vars@), views(results@)),
    {
        let mut out: Vec<Statement> = Vec::new();
        let mut i: usize = 0;
        while i < vars.len()
            invariant
                i <= vars.len(),
                vars.len() == results.len(),
                out.len() == i,
                forall|j: int|
                    0 <= j < i ==> (#[trigger] out@[j])@ == StatementView::Definition(
                        vars@[j]@,
                        results@[j]@,
                    ),
            decreases vars.len() - i,
        {
            out.push(Statement::Definition(vars[i].duplicate(), results[i].duplicate()));
            i += 1;
        }
        assert(views(out@) =~= result_definitions(views(vars@), views(results@)));
        out
    }

    /// Folds a call statement whose arguments are folded already. After an
    /// error the reducer is spent.
    pub fn fold_call_statement(
        &mut self,
        vars: &Vec<Variable>,
        key: &FunctionKey,
        args: &Vec<Expression>,
        types: &Vec<Type>,
    ) -> (r: Result<Vec<Statement>, Error>)
        ensures
            match reduce_call_statement(
                old(self)@,
                views(vars@),
                key@,
                views(args@),
                views(types@),
            ) {
                Err(x) => r is Err && r->Err_0@ == x,
                Ok((st, out)) => r is Ok && views(r->Ok_0@) == out && final(self)@ == st,
            },
    {
        let res = inline_call(
            key,
            args,
            types,
            self.program,
            &mut self.cache,
            &mut self.versions,
        );
        let ghost after = views(self.for_loop_versions_after@);
        match res {
            Ok(Output::Complete((statements, expressions))) => {
                let mut statements = statements;
                let mut rest = if vars.len() == expressions.len() {
                    Self::define_results(vars, &expressions)
                } else {
                    self.complete = false;
                    Self::same_call(vars, key, args, types)
                };
                let ghost a = views(statements@);
                let ghost b = views(rest@);
                statements.append(&mut rest);
                assert(views(statements@) =~= a + b);
                Ok(statements)
            },
            Ok(Output::Incomplete((statements, expressions), delta)) => {
                self.complete = false;
                let mut delta = delta;
                let ghost backups = views(delta@);
                self.for_loop_versions_after.append(&mut delta);
                assert(views(self.for_loop_versions_after@) =~= after + backups);
                let mut statements = statements;
                let mut rest = if vars.len() == expressions.len() {
                    Self::define_results(vars, &expressions)
                } else {
                    Self::same_call(vars, key, args, types)
                };
                let ghost a = views(statements@);
                let ghost b = views(rest@);
                statements.append(&mut rest);
                assert(views(statements@) =~= a + b);
                Ok(statements)
            },
            Err(InlineError::Generic(decl, conc)) => Err(
                Error::Incompatible(decl.to_string(), conc.to_string()),
            ),
            Err(InlineError::NonConstant(key, arguments, output_types)) => {
                self.complete = false;
                Ok(Self::same_call(vars, &key, &arguments, &output_types))
            },
            Err(InlineError::Flat(embed, arguments, output_types)) => {
                let key = embed.key_in_module(&self.program.main);
                Ok(Self::same_call(vars, &key, &arguments, &output_types))
            },
            Err(InlineError::Exhausted) => Err(Error::Exhausted),
        }
    }

    fn same_loop(v: &Variable, from: &Expression, to: &Expression, body: &Vec<Statement>) -> (r:
        Vec<Statement>)
        ensures
            views(r@) == seq![StatementView::For(v@, from@, to@, views(body@))],
    {
        let mut out: Vec<Statement> = Vec::new();
        let st = Statement::For(
            v.duplicate(),
            from.duplicate(),
            to.duplicate(),
            duplicate_statements(body),
        );
        proof {
            lemma_for_view(st);
        }
        out.push(st);
        assert(views(out@) =~= seq![st@]);
        out
    }

    fn unroll_rounds(
        transformer: &mut ShallowTransformer,
        v: &Variable,
        from: u128,
        to: u128,
        body: &Vec<Statement>,
    ) -> (r: Option<Vec<Statement>>)
        ensures
            match unroll(old(transformer)@, v@, from, to, views(body@)) {
                None => r is None,
                Some((t, out)) => r is Some && views(r->0@) == out && final(transformer)@ == t,
            },
    {
        let ghost start = transformer@;
        let mut out: Vec<Statement> = Vec::new();
        assert(views(out@) =~= Seq::empty());
        if from >= to {
            return Some(out);
        }
        let mut index: u128 = from;
        while index < to
            invariant
                from <= index <= to,
                start == old(transformer)@,
                unroll(start, v@, from, index, views(body@)) == Some((transformer@, views(out@))),
            decreases to - index,
        {
            let literal = Expression {
                ty: Type::Uint(UBitwidth::B32),
                inner: ExpressionInner::Value(index),
            };
            proof {
                lemma_expression_view(literal);
            }
            let definition = Statement::Definition(v.duplicate(), literal);
            let ghost head = seq![definition@];
            let ghost t1 = transformer@;
            let ghost before = views(out@);
            proof {
                lemma_ssa_statements_concat(t1, head, views(body@));
                assert(head.drop_last() =~= Seq::empty());
                assert(head.last() == definition@);
                assert(ssa_statements(t1, head.drop_last()) == Some((t1, Seq::<StatementView>::empty())));
            }
            let first = match transformer.fold_statement(&definition) {
                None => {
                    proof {
                        assert(unroll(start, v@, from, (index + 1) as u128, views(body@)) is None);
                        lemma_unroll_none(start, v@, from, (index + 1) as u128, to, views(body@));
                    }
                    return None;
                },
                Some(first) => first,
            };
            proof {
                assert(Seq::<StatementView>::empty().push(first@) =~= seq![first@]);
            }
            let mut rest = match transformer.fold_statements(body) {
                None => {
                    proof {
                        assert(unroll(start, v@, from, (index + 1) as u128, views(body@)) is None);
                        lemma_unroll_none(start, v@, from, (index + 1) as u128, to, views(body@));
                    }
                    return None;
                },
                Some(rest) => rest,
            };
            let ghost tail = views(rest@);
            out.push(first);
            out.append(&mut rest);
            proof {
                assert(views(out@) =~= before + (seq![first@] + tail));
            }
            index += 1;
        }
        Some(out)
    }

    /// Folds a loop. After an error the reducer is spent.
    pub fn fold_loop(&mut self, v: &Variable, from: &Expression, to: &Expression, body: &Vec<Statement>)
        -> (r: Result<Vec<Statement>, Error>)
        requires
            old(self)@.pending.len() > 0,
        ensures
            match reduce_loop(old(self)@, v@, from@, to@, views(body@)) {
                Err(x) => r is Err && r->Err_0@ == x,
                Ok((st, out)) => r is Ok && views(r->Ok_0@) == out && final(self)@ == st,
            },
    {
        proof {
            lemma_expression_view(*from);
            lemma_expression_view(*to);
        }
        let ghost pending = self@.pending;
        let ghost after = views(self.for_loop_versions_after@);
        let ghost stack = views(self.for_loop_versions@);
        let mut before = self.for_loop_versions.pop().unwrap();
        proof {
            assert(pending.first() == before@);
            assert(views(self.for_loop_versions@) =~= stack.drop_last());
            assert(self@.pending =~= pending.drop_first());
        }
        let bounds = match (&from.inner, &to.inner) {
            (ExpressionInner::Value(lo), ExpressionInner::Value(hi)) => {
                if *lo <= 0xffff_ffff && *hi <= 0xffff_ffff {
                    Some((*lo, *hi))
                } else {
                    None
                }
            },
            _ => None,
        };
        match bounds {
            Some((lo, hi)) => {
                if !self.versions.bump_all() {
                    return Err(Error::Exhausted);
                }
                self.substitutions.register(&self.versions, &before);
                if !before.shift(2) {
                    return Err(Error::Exhausted);
                }
                let mut taken = Versions::new();
                core::mem::swap(&mut self.versions, &mut taken);
                let mut transformer = ShallowTransformer::with_versions(taken);
                let out = match Self::unroll_rounds(&mut transformer, v, lo, hi, body) {
                    None => {
                        return Err(Error::Exhausted);
                    },
                    Some(out) => out,
                };
                self.substitutions.register(&before, &transformer.versions);
                let ghost backups = views(transformer.for_loop_backups@);
                self.for_loop_versions_after.append(&mut transformer.for_loop_backups);
                assert(views(self.for_loop_versions_after@) =~= after + backups);
                self.complete = self.complete && !transformer.blocked;
                core::mem::swap(&mut self.versions, &mut transformer.versions);
                Ok(out)
            },
            None => {
                self.complete = false;
                let ghost b = before@;
                self.for_loop_versions_after.push(before);
                assert(views(self.for_loop_versions_after@) =~= after.push(b));
                Ok(Self::same_loop(v, from, to, body))
            },
        }
    }

    fn one(st: Statement) -> (r: Vec<Statement>)
        ensures
            views(r@) == seq![st@],
    {
        let mut out: Vec<Statement> = Vec::new();
        out.push(st);
        assert(views(out@) =~= seq![st@]);
        out
    }

    fn fold_statement_inner(&mut self, s: &Statement) -> (r: Result<Vec<Statement>, Error>)
        requires
            supplied(old(self)@, s@),
        ensures
            match reduce_statement_inner(old(self)@, s@) {
                Err(x) => r is Err && r->Err_0@ == x,
                Ok((st, out)) => r is Ok && views(r->Ok_0@) == out && final(self)@ == st,
            },
    {
        match s {
            Statement::MultipleDefinition(vars, key, args, types) => {
                let args1 = self.fold_expressions(args)?;
                self.fold_call_statement(vars, key, &args1, types)
            },
            Statement::For(v, from, to, body) => {
                proof {
                    lemma_for_view(*s);
                }
                self.fold_loop(v, from, to, body)
            },
            Statement::Definition(v, e) => {
                let e1 = self.fold_expression(e)?;
                Ok(Self::one(Statement::Definition(v.duplicate(), e1)))
            },
            Statement::Return(es) => {
                let es1 = self.fold_expressions(es)?;
                Ok(Self::one(Statement::Return(es1)))
            },
            Statement::PushCallLog(_, _) => Ok(Self::one(s.duplicate())),
            Statement::PopCallLog => Ok(Self::one(s.duplicate())),
        }
    }

    /// The statements that stand for one statement after the pass. A loop
    /// takes the versions before it from those that the reducer holds, which
    /// have to be there. After an error the reducer is spent.
    pub fn fold_statement(&mut self, s: &Statement) -> (r: Result<Vec<Statement>, Error>)
        requires
            supplied(old(self)@, s@),
        ensures
            match reduce_statement(old(self)@, s@) {
                Err(x) => r is Err && r->Err_0@ == x,
                Ok((st, out)) => r is Ok && views(r->Ok_0@) == out && final(self)@ == st,
            },
    {
        let mut res = self.fold_statement_inner(s)?;
        let mut out: Vec<Statement> = Vec::new();
        let ghost a = views(self.statement_buffer@);
        let ghost b = views(res@);
        out.append(&mut self.statement_buffer);
        out.append(&mut res);
        proof {
            assert(views(out@) =~= a + b);
            assert(views(self.statement_buffer@) =~= Seq::empty());
        }
        Ok(out)
    }

    /// The statements of a body after the pass. The reducer has to hold
    /// the versions before every loop of the body. After an error the
    /// reducer is spent.
    pub fn fold_statements(&mut self, body: &Vec<Statement>) -> (r: Result<Vec<Statement>, Error>)
        requires
            old(self)@.pending.len() >= loops(views(body@)),
        ensures
            match reduce_statements(old(self)@, views(body@)) {
                Err(x) => r is Err && r->Err_0@ == x,
                Ok((st, out)) => r is Ok && views(r->Ok_0@) == out && final(self)@ == st,
            },
    {
        let ghost start = self@;
        let ghost all = views(body@);
        let mut out: Vec<Statement> = Vec::new();
        let mut i: usize = 0;
        assert(all.take(0) =~= Seq::empty());
        assert(views(out@) =~= Seq::empty());
        while i < body.len()
            invariant
                i <= body.len(),
                all == views(body@),
                start == old(self)@,
                start.pending.len() >= loops(all),
                self@.pending.len() + loops(all.take(i as int)) == start.pending.len(),
                reduce_statements(start, all.take(i as int)) == Ok::<
                    (ReducerView, Seq<StatementView>),
                    ErrorView,
                >((self@, views(out@))),
            decreases body.len() - i,
        {
            proof {
                assert(all.take(i + 1).drop_last() =~= all.take(i as int));
                assert(all.take(i + 1).last() == body@[i as int]@);
                assert(all =~= all.take(i + 1) + all.skip(i + 1));
                lemma_loops_concat(all.take(i + 1), all.skip(i + 1));
                lemma_reduce_statement_pending(self@, body@[i as int]@);
            }
            let ghost before = views(out@);
            match self.fold_statement(&body[i]) {
                Err(x) => {
                    proof {
                        lemma_reduce_statements_err(start, all, i + 1);
                    }
                    return Err(x);
                },
                Ok(more) => {
                    let mut more = more;
                    let ghost m = views(more@);
                    out.append(&mut more);
                    assert(views(out@) =~= before + m);
                },
            }
            i += 1;
        }
        assert(all.take(body.len() as int) =~= all);
        Ok(out)
    }
}

} // verus!
