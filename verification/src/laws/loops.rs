//! Every loop of a function between two passes has the versions before it
//! recorded, and a pass uses up the versions recorded for the loops it
//! finds.

use crate::absy::{
    ExpressionInnerView, ExpressionView, FunctionView, ProgramView, StatementView, SymbolView,
    VariableView,
};
use crate::apply::{apply_statement, apply_statements};
use crate::driver::{paired, reduce_pass, PassView, ProgressView};
use crate::inline::{
    call_slots, concrete_key, inline_function, inlining, input_bindings, non_returns,
    output_bindings, returned_values, CacheView, InlineErrorView,
};
use crate::laws::reduced::{lemma_ssa_statements_plain, plain};
use crate::laws::single_assignment::lemma_define_fresh;
use crate::reducer::{
    loop_count, loops, literal_bounds, supplied,
    index_literal, reduce_call, reduce_expression, reduce_expressions, reduce_statement,
    reduce_statement_inner, reduce_statements, reducer_start, result_definitions, unroll,
    ReducerView,
};
use crate::resolve::resolve;
use crate::shallow_ssa::{
    define_all, generic_definitions, has_call, lemma_define_all_keeps, shallow_start, ssa_function,
    ssa_statement, ssa_statements, ShallowView,
};
use crate::substitution::SubstitutionsView;
use crate::types::{FunctionKeyView, TypeView};
use crate::unify::{specialize, AssignmentView};
use crate::versions::{shifted, VersionsView};
use vstd::prelude::*;

verus! {

/// The loops of two bodies one after the other are those of both.
pub proof fn lemma_loops_concat(a: Seq<StatementView>, b: Seq<StatementView>)
    ensures
        loops(a + b) == loops(a) + loops(b),
    decreases b.len(),
{
    if b.len() == 0 {
        assert(a + b =~= a);
    } else {
        assert((a + b).drop_last() =~= a + b.drop_last());
        assert((a + b).last() == b.last());
        lemma_loops_concat(a, b.drop_last());
    }
}

/// A body of one statement has one loop where the statement is one.
pub proof fn lemma_loops_single(s: StatementView)
    ensures
        loops(seq![s]) == (if s is For {
            1nat
        } else {
            0nat
        }),
{
    assert(seq![s].drop_last() =~= Seq::empty());
    assert(loops(seq![s].drop_last()) == 0);
    assert(seq![s].last() == s);
}

/// A body without loops has none.
pub proof fn lemma_loops_none(body: Seq<StatementView>)
    requires
        forall|i: int| 0 <= i < body.len() ==> !(#[trigger] body[i] is For),
    ensures
        loops(body) == 0,
    decreases body.len(),
{
    if body.len() > 0 {
        assert forall|i: int| 0 <= i < body.drop_last().len() implies !(
        #[trigger] body.drop_last()[i] is For) by {
            assert(body.drop_last()[i] == body[i]);
        }
        lemma_loops_none(body.drop_last());
        assert(!(body[body.len() - 1] is For));
    }
}

/// The shallow transformation keeps the loops of a body and records the
/// versions before each of them.
pub proof fn lemma_ssa_statements_loops(t: ShallowView, body: Seq<StatementView>)
    ensures
        match ssa_statements(t, body) {
            None => true,
            Some((t1, out)) => {
                &&& loops(out) == loops(body)
                &&& t1.backups.len() == t.backups.len() + loops(body)
            },
        },
    decreases body.len(),
{
    if body.len() > 0 {
        lemma_ssa_statements_loops(t, body.drop_last());
        match ssa_statements(t, body.drop_last()) {
            None => {},
            Some((t1, out)) => {
                match ssa_statement(t1, body.last()) {
                    None => {},
                    Some((t2, s)) => {
                        assert(out.push(s).drop_last() =~= out);
                        match body.last() {
                            StatementView::Definition(v, _) => {
                                lemma_define_fresh(
                                    ShallowView {
                                        blocked: t1.blocked || has_call(
                                            body.last()->Definition_1,
                                        ),
                                        ..t1
                                    },
                                    v,
                                );
                            },
                            StatementView::MultipleDefinition(vs, _, _, _) => {
                                lemma_define_all_keeps(ShallowView { blocked: true, ..t1 }, vs);
                            },
                            _ => {},
                        }
                    },
                }
            },
        }
    }
}

/// The rounds of a loop hold the loops that the versions recorded are for.
pub proof fn lemma_unroll_loops(
    t: ShallowView,
    v: VariableView,
    from: u128,
    to: u128,
    body: Seq<StatementView>,
)
    ensures
        match unroll(t, v, from, to, body) {
            None => true,
            Some((t1, out)) => t1.backups.len() == t.backups.len() + loops(out),
        },
    decreases to,
{
    if from < to {
        lemma_unroll_loops(t, v, from, (to - 1) as u128, body);
        match unroll(t, v, from, (to - 1) as u128, body) {
            None => {},
            Some((t1, out)) => {
                let round = seq![StatementView::Definition(v, index_literal((to - 1) as u128))]
                    + body;
                lemma_ssa_statements_loops(t1, round);
                match ssa_statements(t1, round) {
                    None => {},
                    Some((t2, more)) => {
                        lemma_loops_concat(out, more);
                    },
                }
            },
        }
    }
}

/// Leaving out the `Return` statements keeps the loops of a body.
pub proof fn lemma_non_returns_loops(body: Seq<StatementView>)
    ensures
        loops(non_returns(body)) == loops(body),
    decreases body.len(),
{
    if body.len() > 0 {
        lemma_non_returns_loops(body.drop_last());
        if !(body.last() is Return) {
            assert(non_returns(body.drop_last()).push(body.last()).drop_last() =~= non_returns(
                body.drop_last(),
            ));
        }
    }
}

/// What inlining a function leaves has as many loops as versions recorded.
pub proof fn lemma_inline_function_loops(
    f: FunctionView,
    key: FunctionKeyView,
    assignment: AssignmentView,
    args: Seq<ExpressionView>,
    types: Seq<TypeView>,
    cache: CacheView,
    versions: VersionsView,
)
    ensures
        match inline_function(f, key, assignment, args, types, cache, versions).result {
            Ok(inlined) => loops(inlined.statements) == (match inlined.backups {
                Some(b) => b.len(),
                None => 0,
            }),
            Err(_) => true,
        },
{
    match ssa_function(f, assignment, versions) {
        None => {},
        Some((t, g)) => {
            let returned = returned_values(g.statements);
            if returned.len() == 1 && returned[0].len() == types.len() {
                match call_slots(t.versions, types) {
                    None => {},
                    Some((v2, slots)) => {
                        let start = shallow_start(versions);
                        lemma_define_all_keeps(start, f.arguments);
                        let t1 = define_all(start, f.arguments).unwrap().0;
                        let all = generic_definitions(assignment) + f.statements;
                        lemma_ssa_statements_loops(t1, all);
                        lemma_ssa_statements_plain(t1, all);
                        if !t.blocked {
                            assert forall|i: int| 0 <= i < g.statements.len() implies !(
                            #[trigger] g.statements[i] is For) by {
                                assert(plain(g.statements[i]));
                            }
                            lemma_loops_none(g.statements);
                        }
                        lemma_non_returns_loops(g.statements);
                        let push = seq![StatementView::PushCallLog(key, assignment)];
                        let inputs = input_bindings(g.arguments, args);
                        let body = non_returns(g.statements);
                        let outputs = output_bindings(slots, returned[0]);
                        let pop = seq![StatementView::PopCallLog];
                        lemma_loops_none(push);
                        lemma_loops_none(inputs);
                        lemma_loops_none(outputs);
                        lemma_loops_none(pop);
                        lemma_loops_concat(push + inputs + body + outputs, pop);
                        lemma_loops_concat(push + inputs + body, outputs);
                        lemma_loops_concat(push + inputs, body);
                        lemma_loops_concat(push, inputs);
                    },
                }
            }
        },
    }
}

/// What inlining a call leaves has as many loops as versions recorded.
pub proof fn lemma_inlining_loops(
    key: FunctionKeyView,
    args: Seq<ExpressionView>,
    types: Seq<TypeView>,
    p: ProgramView,
    cache: CacheView,
    versions: VersionsView,
)
    ensures
        match inlining(key, args, types, p, cache, versions).result {
            Ok(inlined) => loops(inlined.statements) == (match inlined.backups {
                Some(b) => b.len(),
                None => 0,
            }),
            Err(_) => true,
        },
{
    match resolve(p, key) {
        Some(SymbolView::Here(f)) => {
            let concrete = concrete_key(key, args, types);
            match specialize(key.signature, concrete.signature) {
                None => {},
                Some(assignment) => {
                    lemma_inline_function_loops(f, key, assignment, args, types, cache, versions);
                },
            }
        },
        _ => {},
    }
}

/// Folding a call records the versions before every loop that it puts in
/// the buffer, and uses up no versions.
pub proof fn lemma_reduce_call_loops(
    st: ReducerView,
    key: FunctionKeyView,
    args: Seq<ExpressionView>,
    ty: TypeView,
)
    ensures
        match reduce_call(st, key, args, ty) {
            Err(_) => true,
            Ok((st1, _)) => {
                &&& st1.pending == st.pending
                &&& st1.after.len() + loops(st.buffer) == st.after.len() + loops(st1.buffer)
            },
        },
{
    let o = inlining(key, args, seq![ty], st.program, st.cache, st.versions);
    lemma_inlining_loops(key, args, seq![ty], st.program, st.cache, st.versions);
    match reduce_call(st, key, args, ty) {
        Err(_) => {},
        Ok((st1, _)) => {
            match o.result {
                Ok(inlined) => {
                    lemma_loops_concat(st.buffer, inlined.statements);
                },
                Err(InlineErrorView::Flat(_, _, _)) => {
                    let call = st1.buffer.last();
                    assert(st1.buffer =~= st.buffer + seq![call]);
                    lemma_loops_concat(st.buffer, seq![call]);
                    lemma_loops_single(call);
                },
                _ => {},
            }
        },
    }
}

/// Folding an expression records the versions before every loop that it
/// puts in the buffer, and uses up no versions.
pub proof fn lemma_reduce_expression_loops(st: ReducerView, e: ExpressionView)
    ensures
        match reduce_expression(st, e) {
            Err(_) => true,
            Ok((st1, _)) => {
                &&& st1.pending == st.pending
                &&& st1.after.len() + loops(st.buffer) == st.after.len() + loops(st1.buffer)
            },
        },
    decreases e,
{
    match e.inner {
        ExpressionInnerView::FunctionCall(key, args) => {
            lemma_reduce_expressions_loops(st, args);
            match reduce_expressions(st, args) {
                Err(_) => {},
                Ok((st1, args1)) => {
                    lemma_reduce_call_loops(st1, key, args1, e.ty);
                },
            }
        },
        ExpressionInnerView::Values(es) => {
            lemma_reduce_expressions_loops(st, es);
        },
        ExpressionInnerView::Operation(_, es) => {
            lemma_reduce_expressions_loops(st, es);
        },
        _ => {},
    }
}

/// Folding expressions records the versions before every loop that it puts
/// in the buffer, and uses up no versions.
pub proof fn lemma_reduce_expressions_loops(st: ReducerView, es: Seq<ExpressionView>)
    ensures
        match reduce_expressions(st, es) {
            Err(_) => true,
            Ok((st1, _)) => {
                &&& st1.pending == st.pending
                &&& st1.after.len() + loops(st.buffer) == st.after.len() + loops(st1.buffer)
            },
        },
    decreases es,
{
    if es.len() > 0 {
        lemma_reduce_expressions_loops(st, es.drop_last());
        match reduce_expressions(st, es.drop_last()) {
            Err(_) => {},
            Ok((st1, _)) => {
                lemma_reduce_expression_loops(st1, es.last());
            },
        }
    }
}

/// A statement uses up the versions recorded for it where it is a loop,
/// and no others.
pub proof fn lemma_reduce_statement_pending(st: ReducerView, s: StatementView)
    requires
        supplied(st, s),
    ensures
        match reduce_statement(st, s) {
            Err(_) => true,
            Ok((st1, _)) => st1.pending.len() + loop_count(s) == st.pending.len(),
        },
{
    match s {
        StatementView::MultipleDefinition(_, _, args, _) => {
            lemma_reduce_expressions_loops(st, args);
        },
        StatementView::Definition(_, e) => {
            lemma_reduce_expression_loops(st, e);
        },
        StatementView::Return(es) => {
            lemma_reduce_expressions_loops(st, es);
        },
        _ => {},
    }
}

/// A statement uses up the versions recorded for it where it is a loop,
/// and the versions before every loop among the statements that stand for
/// it are recorded.
pub proof fn lemma_reduce_statement_loops(st: ReducerView, s: StatementView)
    requires
        st.buffer == Seq::<StatementView>::empty(),
        st.pending.len() >= loop_count(s),
    ensures
        match reduce_statement(st, s) {
            Err(_) => true,
            Ok((st1, out)) => {
                &&& st1.pending.len() + loop_count(s) == st.pending.len()
                &&& st1.after.len() == st.after.len() + loops(out)
            },
        },
{
    match reduce_statement_inner(st, s) {
        Err(_) => {},
        Ok((st1, res)) => {
            lemma_loops_concat(st1.buffer, res);
            match s {
                StatementView::MultipleDefinition(vars, key, args, types) => {
                    lemma_reduce_expressions_loops(st, args);
                    let folded = reduce_expressions(st, args)->Ok_0;
                    let st0 = folded.0;
                    let args1 = folded.1;
                    lemma_inlining_loops(key, args1, types, st0.program, st0.cache, st0.versions);
                    let o = inlining(key, args1, types, st0.program, st0.cache, st0.versions);
                    if o.result is Ok {
                        let inlined = o.result->Ok_0;
                        let definitions = result_definitions(
                            vars,
                            inlined.expressions,
                        );
                        lemma_loops_none(definitions);
                        lemma_loops_concat(inlined.statements, definitions);
                        let kept = seq![
                            StatementView::MultipleDefinition(vars, key, args1, types),
                        ];
                        lemma_loops_none(kept);
                        lemma_loops_concat(inlined.statements, kept);
                    } else {
                        lemma_loops_single(res[0]);
                        assert(res =~= seq![res[0]]);
                    }
                },
                StatementView::For(v, from, to, body) => {
                    if literal_bounds(from, to) is Some {
                        let now = shifted(st.versions, 1);
                        lemma_unroll_loops(
                            shallow_start(now),
                            v,
                            literal_bounds(from, to).unwrap().0,
                            literal_bounds(from, to).unwrap().1,
                            body,
                        );
                    } else {
                        lemma_loops_single(res[0]);
                        assert(res =~= seq![res[0]]);
                    }
                },
                StatementView::Definition(_, e) => {
                    lemma_reduce_expression_loops(st, e);
                    lemma_loops_single(res[0]);
                    assert(res =~= seq![res[0]]);
                },
                StatementView::Return(es) => {
                    lemma_reduce_expressions_loops(st, es);
                    lemma_loops_single(res[0]);
                    assert(res =~= seq![res[0]]);
                },
                _ => {
                    lemma_loops_single(res[0]);
                    assert(res =~= seq![res[0]]);
                },
            }
        },
    }
}

/// A pass over a body uses up the versions recorded for its loops, and the
/// versions before every loop of the body that it leaves are recorded.
pub proof fn lemma_reduce_statements_loops(st: ReducerView, body: Seq<StatementView>)
    requires
        st.buffer == Seq::<StatementView>::empty(),
        st.pending.len() >= loops(body),
    ensures
        match reduce_statements(st, body) {
            Err(_) => true,
            Ok((st1, out)) => {
                &&& st1.buffer == Seq::<StatementView>::empty()
                &&& st1.pending.len() + loops(body) == st.pending.len()
                &&& st1.after.len() == st.after.len() + loops(out)
            },
        },
    decreases body.len(),
{
    if body.len() > 0 {
        lemma_reduce_statements_loops(st, body.drop_last());
        match reduce_statements(st, body.drop_last()) {
            Err(_) => {},
            Ok((st1, out)) => {
                lemma_reduce_statement_loops(st1, body.last());
                match reduce_statement(st1, body.last()) {
                    Err(_) => {},
                    Ok((st2, more)) => {
                        lemma_loops_concat(out, more);
                    },
                }
            },
        }
    }
}

/// Applying a substitution keeps the loops of a body.
pub proof fn lemma_apply_loops(s: SubstitutionsView, body: Seq<StatementView>)
    ensures
        loops(apply_statements(s, body)) == loops(body),
    decreases body.len(),
{
    let out = apply_statements(s, body);
    if body.len() > 0 {
        assert(out.drop_last() =~= apply_statements(s, body.drop_last()));
        assert(out.last() == apply_statement(s, body.last()));
        lemma_apply_loops(s, body.drop_last());
    }
}

/// The shallow form of a function has the versions before every one of its
/// loops recorded.
pub proof fn lemma_ssa_function_paired(
    f: FunctionView,
    generics: Seq<(Seq<char>, u32)>,
    versions: VersionsView,
)
    ensures
        match ssa_function(f, generics, versions) {
            None => true,
            Some((t, g)) => t.backups.len() == loops(g.statements),
        },
{
    let start = shallow_start(versions);
    lemma_define_all_keeps(start, f.arguments);
    match define_all(start, f.arguments) {
        None => {},
        Some((t1, _)) => {
            lemma_ssa_statements_loops(t1, generic_definitions(generics) + f.statements);
        },
    }
}

/// A pass over a function that has the versions before every loop recorded
/// uses them all up, and leaves a function that has these versions
/// recorded for its loops.
pub proof fn lemma_pass_paired(program: ProgramView, p: ProgressView)
    requires
        paired(p),
    ensures
        match reduce_statements(
            reducer_start(program, p.versions, p.substitutions, p.pending),
            p.function.statements,
        ) {
            Err(_) => true,
            Ok((st, _)) => st.pending.len() == 0,
        },
        match reduce_pass(program, p) {
            Ok(PassView::Again(next)) => paired(next),
            _ => true,
        },
{
    let start = reducer_start(program, p.versions, p.substitutions, p.pending);
    lemma_reduce_statements_loops(start, p.function.statements);
    match reduce_statements(start, p.function.statements) {
        Err(_) => {},
        Ok((st, out)) => {
            lemma_apply_loops(st.substitutions, out);
        },
    }
}

} // verus!
