//! A reduced function holds no loop and no call of a function of the
//! program.

use crate::absy::{
    ExpressionInnerView, ExpressionView, FlatEmbed, FunctionView, ModuleView, ProgramView,
    StatementView, SymbolView, TypedFunction, VariableView,
};
use crate::apply::apply_statements;
use crate::driver::{reduce_pass, reduction, run, PassView, ProgressView};
use crate::embed::{embed_entries, embed_key, embed_name};
use crate::error::ErrorView;
use crate::identifier::{CoreIdentifierView, IdentifierView};
use crate::inline::{
    cache_sized, lemma_inlining_sized,
    cache_get, call_slots, concrete_key, inline_function, inlining, input_bindings,
    lemma_call_slots_len, non_returns, output_bindings, returned_values, slot_reads, CacheView,
    InlineErrorView,
};
use crate::program::{
    extended, find_main, has_entry, main_entry, program_reduction, reduced_program,
};
use crate::reducer::{
    literal_bounds,
    index_literal, reduce_call, reduce_call_statement, reduce_expression, reduce_expressions,
    reduce_loop, reduce_statement, reduce_statement_inner, reduce_statements, reducer_start,
    result_definitions, unroll, ReducerView,
};
use crate::rename::{lemma_rename_expression, rename_expression, rename_expressions, Renaming};
use crate::resolve::{find_function, find_module, resolve};
use crate::shallow_ssa::{
    any_has_call, define, define_all, generic_definitions, has_call, lemma_define_all_keeps,
    shallow_start, ssa_function, ssa_statement, ssa_statements, ShallowView,
};
use crate::substitution::{compressed_all, SubstitutionsView};
use crate::types::{FunctionKeyView, TypeView};
use crate::unify::{specialize, AssignmentView};
use crate::versions::{next_version, shifted, VersionsView};
use vstd::prelude::*;

verus! {

/// Whether a statement is neither a loop nor a call statement and holds no
/// call.
pub open spec fn plain(s: StatementView) -> bool {
    match s {
        StatementView::Definition(_, e) => !has_call(e),
        StatementView::Return(es) => !any_has_call(es),
        StatementView::PushCallLog(_, _) => true,
        StatementView::PopCallLog => true,
        _ => false,
    }
}

/// Whether a statement is a call of a primitive in the module `main` whose
/// arguments hold no call.
pub open spec fn calls_primitive(s: StatementView, main: Seq<char>) -> bool {
    &&& s is MultipleDefinition
    &&& !any_has_call(s->MultipleDefinition_2)
    &&& exists|e: FlatEmbed| s->MultipleDefinition_1 == #[trigger] embed_key(e, main)
}

/// Whether a statement may stand in a reduced function: it is plain, or a
/// call of a primitive.
pub open spec fn reduced_statement(s: StatementView, main: Seq<char>) -> bool {
    plain(s) || calls_primitive(s, main)
}

/// Whether every statement of a body is plain.
pub open spec fn all_plain(body: Seq<StatementView>) -> bool {
    forall|i: int| 0 <= i < body.len() ==> plain(#[trigger] body[i])
}

/// Whether every statement of a body may stand in a reduced function.
pub open spec fn reduced_body(body: Seq<StatementView>, main: Seq<char>) -> bool {
    forall|i: int| 0 <= i < body.len() ==> reduced_statement(#[trigger] body[i], main)
}

/// Renaming neither adds nor removes a call.
pub proof fn lemma_rename_keeps_calls(r: Renaming, e: ExpressionView)
    ensures
        has_call(rename_expression(r, e)) == has_call(e),
    decreases e,
{
    lemma_rename_expression(r, e);
    match e.inner {
        ExpressionInnerView::Values(es) => {
            lemma_rename_all_keep_calls(r, es);
        },
        ExpressionInnerView::Operation(_, es) => {
            lemma_rename_all_keep_calls(r, es);
        },
        _ => {},
    }
}

/// Renaming neither adds a call to a sequence of expressions nor removes
/// one.
pub proof fn lemma_rename_all_keep_calls(r: Renaming, es: Seq<ExpressionView>)
    ensures
        any_has_call(rename_expressions(r, es)) == any_has_call(es),
    decreases es,
{
    let out = rename_expressions(r, es);
    assert forall|i: int| 0 <= i < es.len() implies has_call(out[i]) == has_call(es[i]) by {
        lemma_rename_keeps_calls(r, es[i]);
    }
    if any_has_call(es) {
        let i = choose|i: int| 0 <= i < es.len() && has_call(es[i]);
        assert(has_call(out[i]));
    }
    if any_has_call(out) {
        let i = choose|i: int| 0 <= i < out.len() && has_call(out[i]);
        assert(has_call(es[i]));
    }
}

/// A statement that does not block the transformer is plain afterwards.
pub proof fn lemma_ssa_statement_plain(t: ShallowView, s: StatementView)
    ensures
        match ssa_statement(t, s) {
            None => true,
            Some((t1, s1)) => !t1.blocked ==> !t.blocked && plain(s1),
        },
{
    let r = Renaming::Latest(t.versions);
    match s {
        StatementView::Definition(v, e) => {
            lemma_rename_keeps_calls(r, e);
            let t1 = ShallowView { blocked: t.blocked || has_call(e), ..t };
            match define(t1, v) {
                None => {},
                Some((t2, v2)) => {
                    assert(t2.blocked == t1.blocked);
                    assert(ssa_statement(t, s) == Some(
                        (t2, StatementView::Definition(v2, rename_expression(r, e))),
                    ));
                },
            }
        },
        StatementView::Return(es) => {
            lemma_rename_all_keep_calls(r, es);
        },
        StatementView::MultipleDefinition(vs, _, _, _) => {
            lemma_define_all_keeps(ShallowView { blocked: true, ..t }, vs);
        },
        _ => {},
    }
}

/// A body that does not block the transformer is plain afterwards.
pub proof fn lemma_ssa_statements_plain(t: ShallowView, body: Seq<StatementView>)
    ensures
        match ssa_statements(t, body) {
            None => true,
            Some((t1, out)) => out.len() == body.len() && (!t1.blocked ==> !t.blocked && all_plain(
                out,
            )),
        },
    decreases body.len(),
{
    if body.len() > 0 {
        lemma_ssa_statements_plain(t, body.drop_last());
        match ssa_statements(t, body.drop_last()) {
            None => {},
            Some((t1, out)) => {
                lemma_ssa_statement_plain(t1, body.last());
            },
        }
    }
}

/// The rounds of a loop that do not block the transformer are plain.
pub proof fn lemma_unroll_plain(
    t: ShallowView,
    v: VariableView,
    from: u128,
    to: u128,
    body: Seq<StatementView>,
)
    ensures
        match unroll(t, v, from, to, body) {
            None => true,
            Some((t1, out)) => !t1.blocked ==> !t.blocked && all_plain(out),
        },
    decreases to,
{
    if from < to {
        lemma_unroll_plain(t, v, from, (to - 1) as u128, body);
        match unroll(t, v, from, (to - 1) as u128, body) {
            None => {},
            Some((t1, out)) => {
                lemma_ssa_statements_plain(
                    t1,
                    seq![
                        StatementView::Definition(
                            v,
                            index_literal((to - 1) as u128),
                        ),
                    ] + body,
                );
            },
        }
    }
}

/// The statements of a body that are no `Return` are among its statements.
pub proof fn lemma_non_returns_plain(body: Seq<StatementView>)
    requires
        all_plain(body),
    ensures
        all_plain(non_returns(body)),
    decreases body.len(),
{
    if body.len() > 0 {
        assert(all_plain(body.drop_last())) by {
            assert forall|i: int| 0 <= i < body.drop_last().len() implies plain(
                #[trigger] body.drop_last()[i],
            ) by {
                assert(body.drop_last()[i] == body[i]);
            }
        }
        lemma_non_returns_plain(body.drop_last());
        assert(plain(body.last()));
    }
}

/// What the `Return` statements of a plain body return holds no call.
pub proof fn lemma_returned_values_plain(body: Seq<StatementView>)
    requires
        all_plain(body),
    ensures
        forall|i: int|
            0 <= i < returned_values(body).len() ==> !any_has_call(
                #[trigger] returned_values(body)[i],
            ),
    decreases body.len(),
{
    if body.len() > 0 {
        assert(all_plain(body.drop_last())) by {
            assert forall|i: int| 0 <= i < body.drop_last().len() implies plain(
                #[trigger] body.drop_last()[i],
            ) by {
                assert(body.drop_last()[i] == body[i]);
            }
        }
        lemma_returned_values_plain(body.drop_last());
        assert(plain(body.last()));
        let head = returned_values(body.drop_last());
        assert forall|i: int| 0 <= i < returned_values(body).len() implies !any_has_call(
            #[trigger] returned_values(body)[i],
        ) by {
            if i < head.len() {
                assert(returned_values(body)[i] == head[i]);
            }
        }
    }
}

/// Two plain bodies one after the other are a plain body.
pub proof fn lemma_all_plain_concat(a: Seq<StatementView>, b: Seq<StatementView>)
    requires
        all_plain(a),
        all_plain(b),
    ensures
        all_plain(a + b),
{
    assert forall|i: int| 0 <= i < (a + b).len() implies plain(#[trigger] (a + b)[i]) by {
        if i < a.len() {
            assert((a + b)[i] == a[i]);
        } else {
            assert((a + b)[i] == b[i - a.len()]);
        }
    }
}

/// Two reduced bodies one after the other are a reduced body.
pub proof fn lemma_reduced_concat(a: Seq<StatementView>, b: Seq<StatementView>, main: Seq<char>)
    requires
        reduced_body(a, main),
        reduced_body(b, main),
    ensures
        reduced_body(a + b, main),
{
    assert forall|i: int| 0 <= i < (a + b).len() implies reduced_statement(
        #[trigger] (a + b)[i],
        main,
    ) by {
        if i < a.len() {
            assert((a + b)[i] == a[i]);
        } else {
            assert((a + b)[i] == b[i - a.len()]);
        }
    }
}

/// A plain body is a reduced body.
pub proof fn lemma_plain_is_reduced(a: Seq<StatementView>, main: Seq<char>)
    requires
        all_plain(a),
    ensures
        reduced_body(a, main),
{
}

/// Whether the results that a cache remembers hold no call.
pub open spec fn cache_plain(c: CacheView) -> bool {
    forall|i: int| 0 <= i < c.len() ==> !any_has_call((#[trigger] c[i]).2)
}

/// What a cache of results without calls gives holds no call.
pub proof fn lemma_cache_get_plain(c: CacheView, key: FunctionKeyView, args: Seq<ExpressionView>)
    requires
        cache_plain(c),
    ensures
        cache_get(c, key, args) is Some ==> !any_has_call(cache_get(c, key, args)->0),
    decreases c.len(),
{
    if c.len() > 0 {
        if c.last().0 == key && c.last().1 == args {
            assert(c[c.len() - 1] == c.last());
        } else {
            assert forall|i: int| 0 <= i < c.drop_last().len() implies !any_has_call(
                (#[trigger] c.drop_last()[i]).2,
            ) by {
                assert(c.drop_last()[i] == c[i]);
            }
            lemma_cache_get_plain(c.drop_last(), key, args);
        }
    }
}

/// What inlining a function gives holds no call, where the function has
/// neither loop nor call and the arguments hold no call.
pub proof fn lemma_inline_function_plain(
    f: FunctionView,
    key: FunctionKeyView,
    assignment: AssignmentView,
    args: Seq<ExpressionView>,
    types: Seq<TypeView>,
    cache: CacheView,
    versions: VersionsView,
)
    requires
        cache_plain(cache),
    ensures
        ({
            let o = inline_function(f, key, assignment, args, types, cache, versions);
            &&& cache_plain(o.cache)
            &&& match o.result {
                Ok(inlined) => {
                    &&& !any_has_call(inlined.expressions)
                    &&& inlined.backups is None && !any_has_call(args) ==> all_plain(
                        inlined.statements,
                    )
                },
                Err(e) => e == InlineErrorView::NonConstant(key, args, types)
                    || e == InlineErrorView::Exhausted,
            }
        }),
{
    match ssa_function(f, assignment, versions) {
        None => {},
        Some((t, g)) => {
            let returned = returned_values(g.statements);
            if returned.len() != 1 || returned[0].len() != types.len() {
            } else {
                match call_slots(t.versions, types) {
                    None => {},
                    Some((v2, slots)) => {
                        lemma_call_slots_len(t.versions, types);
                        let expressions = slot_reads(slots);
                        assert(!any_has_call(expressions));
                        let o = inline_function(f, key, assignment, args, types, cache, versions);
                        assert(cache_plain(o.cache)) by {
                            assert forall|i: int| 0 <= i < o.cache.len() implies !any_has_call(
                                (#[trigger] o.cache[i]).2,
                            ) by {
                                if i < cache.len() {
                                    assert(o.cache[i] == cache[i]);
                                }
                            }
                        }
                        if !t.blocked && !any_has_call(args) {
                            match define_all(shallow_start(versions), f.arguments) {
                                None => {},
                                Some((t1, arguments)) => {
                                    lemma_define_all_keeps(
                                        shallow_start(versions),
                                        f.arguments,
                                    );
                                    lemma_ssa_statements_plain(
                                        t1,
                                        generic_definitions(assignment) + f.statements,
                                    );
                                },
                            }
                            assert(all_plain(g.statements));
                            lemma_non_returns_plain(g.statements);
                            lemma_returned_values_plain(g.statements);
                            let a = seq![StatementView::PushCallLog(key, assignment)];
                            let b = input_bindings(g.arguments, args);
                            let c = non_returns(g.statements);
                            let d = output_bindings(slots, returned[0]);
                            let e = seq![StatementView::PopCallLog];
                            assert(all_plain(a));
                            assert(all_plain(b));
                            assert(all_plain(d)) by {
                                assert forall|i: int| 0 <= i < d.len() implies plain(
                                    #[trigger] d[i],
                                ) by {
                                    assert(!has_call(returned[0][i]));
                                }
                            }
                            assert(all_plain(e));
                            lemma_all_plain_concat(a, b);
                            lemma_all_plain_concat(a + b, c);
                            lemma_all_plain_concat(a + b + c, d);
                            lemma_all_plain_concat(a + b + c + d, e);
                        }
                    },
                }
            }
        },
    }
}

/// What inlining a call gives holds no call, where the function has
/// neither loop nor call and the arguments hold no call. A call that is
/// handed back, or that is to a primitive, comes back as it was.
pub proof fn lemma_inlining_plain(
    key: FunctionKeyView,
    args: Seq<ExpressionView>,
    types: Seq<TypeView>,
    p: ProgramView,
    cache: CacheView,
    versions: VersionsView,
)
    requires
        cache_plain(cache),
    ensures
        ({
            let o = inlining(key, args, types, p, cache, versions);
            &&& cache_plain(o.cache)
            &&& match o.result {
                Ok(inlined) => {
                    &&& !any_has_call(inlined.expressions)
                    &&& inlined.backups is None && !any_has_call(args) ==> all_plain(
                        inlined.statements,
                    )
                },
                Err(InlineErrorView::NonConstant(k, a, t)) => k == key && a == args && t == types,
                Err(InlineErrorView::Flat(_, a, t)) => a == args && t == types,
                Err(_) => true,
            }
        }),
{
    match resolve(p, key) {
        Some(SymbolView::Here(f)) => {
            let concrete = concrete_key(key, args, types);
            match specialize(key.signature, concrete.signature) {
                None => {},
                Some(assignment) => {
                    lemma_cache_get_plain(cache, concrete, args);
                    lemma_inline_function_plain(f, key, assignment, args, types, cache, versions);
                },
            }
        },
        _ => {},
    }
}

/// What a pass keeps true of its reducer: the cache remembers results
/// without calls, as many for each call as its key has output types, and
/// while the pass is complete the buffer is reduced.
pub open spec fn tidy(st: ReducerView) -> bool {
    &&& cache_plain(st.cache)
    &&& cache_sized(st.cache)
    &&& st.complete ==> reduced_body(st.buffer, st.program.main)
}

/// Folding a call keeps the reducer tidy, and what stands for the call
/// holds no call where the pass is still complete.
pub proof fn lemma_reduce_call_reduced(
    st: ReducerView,
    key: FunctionKeyView,
    args: Seq<ExpressionView>,
    ty: TypeView,
)
    requires
        tidy(st),
        st.complete ==> !any_has_call(args),
    ensures
        match reduce_call(st, key, args, ty) {
            Err(_) => true,
            Ok((st1, e1)) => {
                &&& tidy(st1)
                &&& st1.program == st.program
                &&& st1.complete ==> st.complete && !has_call(e1)
            },
        },
{
    let main = st.program.main;
    let o = inlining(key, args, seq![ty], st.program, st.cache, st.versions);
    lemma_inlining_plain(key, args, seq![ty], st.program, st.cache, st.versions);
    lemma_inlining_sized(key, args, seq![ty], st.program, st.cache, st.versions);
    match o.result {
        Ok(inlined) => {
            assert(!has_call(inlined.expressions[0]));
            if st.complete && inlined.backups is None {
                lemma_plain_is_reduced(inlined.statements, main);
                lemma_reduced_concat(st.buffer, inlined.statements, main);
            }
        },
        Err(InlineErrorView::Flat(embed, a, t)) => {
            let id = CoreIdentifierView::Call(0);
            match next_version(o.versions, id) {
                None => {},
                Some(n) => {
                    let var = VariableView {
                        id: IdentifierView { id, version: n },
                        ty,
                    };
                    let call = StatementView::MultipleDefinition(
                        seq![var],
                        embed_key(embed, main),
                        a,
                        t,
                    );
                    if st.complete {
                        assert(calls_primitive(call, main));
                        assert(reduced_body(seq![call], main));
                        lemma_reduced_concat(st.buffer, seq![call], main);
                        assert(st.buffer.push(call) =~= st.buffer + seq![call]);
                    }
                },
            }
        },
        _ => {},
    }
}

/// Folding an expression keeps the reducer tidy, and the folded expression
/// holds no call where the pass is still complete.
pub proof fn lemma_reduce_expression_reduced(st: ReducerView, e: ExpressionView)
    requires
        tidy(st),
    ensures
        match reduce_expression(st, e) {
            Err(_) => true,
            Ok((st1, e1)) => {
                &&& tidy(st1)
                &&& st1.program == st.program
                &&& st1.complete ==> st.complete && !has_call(e1)
            },
        },
    decreases e,
{
    match e.inner {
        ExpressionInnerView::FunctionCall(key, args) => {
            lemma_reduce_expressions_reduced(st, args);
            match reduce_expressions(st, args) {
                Err(_) => {},
                Ok((st1, args1)) => {
                    lemma_reduce_call_reduced(st1, key, args1, e.ty);
                },
            }
        },
        ExpressionInnerView::Values(es) => {
            lemma_reduce_expressions_reduced(st, es);
        },
        ExpressionInnerView::Operation(_, es) => {
            lemma_reduce_expressions_reduced(st, es);
        },
        _ => {},
    }
}

/// Folding expressions keeps the reducer tidy, and the folded expressions
/// hold no call where the pass is still complete.
pub proof fn lemma_reduce_expressions_reduced(st: ReducerView, es: Seq<ExpressionView>)
    requires
        tidy(st),
    ensures
        match reduce_expressions(st, es) {
            Err(_) => true,
            Ok((st1, es1)) => {
                &&& tidy(st1)
                &&& st1.program == st.program
                &&& es1.len() == es.len()
                &&& st1.complete ==> st.complete && !any_has_call(es1)
            },
        },
    decreases es,
{
    if es.len() > 0 {
        lemma_reduce_expressions_reduced(st, es.drop_last());
        match reduce_expressions(st, es.drop_last()) {
            Err(_) => {},
            Ok((st1, out)) => {
                lemma_reduce_expression_reduced(st1, es.last());
                match reduce_expression(st1, es.last()) {
                    Err(_) => {},
                    Ok((st2, e)) => {
                        if st2.complete {
                            let all = out.push(e);
                            if any_has_call(all) {
                                let i = choose|i: int| 0 <= i < all.len() && has_call(all[i]);
                                if i < out.len() {
                                    assert(has_call(out[i]));
                                }
                            }
                        }
                    },
                }
            },
        }
    }
}

/// Folding a call statement keeps the reducer tidy, and what it becomes is
/// reduced where the pass is still complete.
pub proof fn lemma_reduce_call_statement_reduced(
    st: ReducerView,
    vars: Seq<VariableView>,
    key: FunctionKeyView,
    args: Seq<ExpressionView>,
    types: Seq<TypeView>,
)
    requires
        tidy(st),
        st.complete ==> !any_has_call(args),
    ensures
        match reduce_call_statement(st, vars, key, args, types) {
            Err(_) => true,
            Ok((st1, out)) => {
                &&& tidy(st1)
                &&& st1.program == st.program
                &&& st1.buffer == st.buffer
                &&& st1.complete ==> st.complete && reduced_body(out, st.program.main)
            },
        },
{
    let main = st.program.main;
    let o = inlining(key, args, types, st.program, st.cache, st.versions);
    lemma_inlining_plain(key, args, types, st.program, st.cache, st.versions);
    lemma_inlining_sized(key, args, types, st.program, st.cache, st.versions);
    match o.result {
        Ok(inlined) => {
            if vars.len() == inlined.expressions.len() && st.complete && inlined.backups is None {
                let definitions = result_definitions(vars, inlined.expressions);
                assert(all_plain(definitions)) by {
                    assert forall|i: int| 0 <= i < definitions.len() implies plain(
                        #[trigger] definitions[i],
                    ) by {
                        assert(!has_call(inlined.expressions[i]));
                    }
                }
                lemma_all_plain_concat(inlined.statements, definitions);
            }
        },
        Err(InlineErrorView::Flat(embed, a, t)) => {
            let call = StatementView::MultipleDefinition(vars, embed_key(embed, main), a, t);
            if st.complete {
                assert(calls_primitive(call, main));
            }
        },
        _ => {},
    }
}

/// Folding a loop keeps the reducer tidy, and what it becomes is reduced
/// where the pass is still complete.
pub proof fn lemma_reduce_loop_reduced(
    st: ReducerView,
    v: VariableView,
    from: ExpressionView,
    to: ExpressionView,
    body: Seq<StatementView>,
)
    requires
        tidy(st),
    ensures
        match reduce_loop(st, v, from, to, body) {
            Err(_) => true,
            Ok((st1, out)) => {
                &&& tidy(st1)
                &&& st1.program == st.program
                &&& st1.buffer == st.buffer
                &&& st1.complete ==> st.complete && reduced_body(out, st.program.main)
            },
        },
{
    match literal_bounds(from, to) {
        Some((lo, hi)) => {
            let now = shifted(st.versions, 1);
            lemma_unroll_plain(shallow_start(now), v, lo, hi, body);
        },
        None => {},
    }
}

/// Folding a statement keeps the reducer tidy, and the statements that
/// stand for it are reduced where the pass is still complete.
pub proof fn lemma_reduce_statement_reduced(st: ReducerView, s: StatementView)
    requires
        tidy(st),
    ensures
        match reduce_statement(st, s) {
            Err(_) => true,
            Ok((st1, out)) => {
                &&& tidy(st1)
                &&& st1.program == st.program
                &&& st1.complete ==> st.complete && reduced_body(out, st.program.main)
            },
        },
{
    let main = st.program.main;
    match s {
        StatementView::MultipleDefinition(vars, key, args, types) => {
            lemma_reduce_expressions_reduced(st, args);
            match reduce_expressions(st, args) {
                Err(_) => {},
                Ok((st1, args1)) => {
                    lemma_reduce_call_statement_reduced(st1, vars, key, args1, types);
                },
            }
        },
        StatementView::For(v, from, to, body) => {
            lemma_reduce_loop_reduced(st, v, from, to, body);
        },
        StatementView::Definition(v, e) => {
            lemma_reduce_expression_reduced(st, e);
        },
        StatementView::Return(es) => {
            lemma_reduce_expressions_reduced(st, es);
        },
        _ => {},
    }
    match reduce_statement_inner(st, s) {
        Err(_) => {},
        Ok((st1, out)) => {
            if st1.complete {
                assert(reduced_body(out, main));
                lemma_reduced_concat(st1.buffer, out, main);
            }
        },
    }
}

/// A pass over a body keeps the reducer tidy, and where the pass is
/// complete, the body that it leaves is reduced.
pub proof fn lemma_reduce_statements_reduced(st: ReducerView, body: Seq<StatementView>)
    requires
        tidy(st),
    ensures
        match reduce_statements(st, body) {
            Err(_) => true,
            Ok((st1, out)) => {
                &&& tidy(st1)
                &&& st1.program == st.program
                &&& st1.complete ==> st.complete && reduced_body(out, st.program.main)
            },
        },
    decreases body.len(),
{
    if body.len() > 0 {
        lemma_reduce_statements_reduced(st, body.drop_last());
        match reduce_statements(st, body.drop_last()) {
            Err(_) => {},
            Ok((st1, out)) => {
                lemma_reduce_statement_reduced(st1, body.last());
                match reduce_statement(st1, body.last()) {
                    Err(_) => {},
                    Ok((st2, more)) => {
                        if st2.complete {
                            lemma_reduced_concat(out, more, st.program.main);
                        }
                    },
                }
            },
        }
    }
}

/// Applying a substitution keeps a statement reduced.
pub proof fn lemma_apply_keeps_reduced(
    s: SubstitutionsView,
    body: Seq<StatementView>,
    main: Seq<char>,
)
    requires
        reduced_body(body, main),
    ensures
        reduced_body(apply_statements(s, body), main),
{
    let r = Renaming::Substitute(s);
    let out = apply_statements(s, body);
    assert forall|i: int| 0 <= i < out.len() implies reduced_statement(#[trigger] out[i], main) by {
        let st = body[i];
        assert(reduced_statement(st, main));
        match st {
            StatementView::Definition(_, e) => {
                lemma_rename_keeps_calls(r, e);
            },
            StatementView::Return(es) => {
                lemma_rename_all_keep_calls(r, es);
            },
            StatementView::MultipleDefinition(_, key, args, _) => {
                lemma_rename_all_keep_calls(r, args);
                let e = choose|e: FlatEmbed| key == #[trigger] embed_key(e, main);
                assert(out[i]->MultipleDefinition_1 == embed_key(e, main));
            },
            _ => {},
        }
    }
}

/// A complete pass leaves a reduced body.
pub proof fn lemma_pass_reduced(program: ProgramView, p: ProgressView)
    ensures
        match reduce_pass(program, p) {
            Ok(PassView::Done(f)) => reduced_body(f.statements, program.main),
            _ => true,
        },
{
    let start = reducer_start(program, p.versions, p.substitutions, p.pending);
    lemma_reduce_statements_reduced(start, p.function.statements);
    match reduce_statements(start, p.function.statements) {
        Err(_) => {},
        Ok((st, statements)) => {
            if st.complete {
                lemma_apply_keeps_reduced(
                    compressed_all(st.substitutions),
                    statements,
                    program.main,
                );
            }
        },
    }
}

/// A run that ends with a function ends with a reduced one, whatever the
/// propagation between the passes hands back.
pub proof fn lemma_run_reduced<P: Fn(TypedFunction) -> TypedFunction>(
    propagate: P,
    program: ProgramView,
    p: ProgressView,
    budget: nat,
    h: FunctionView,
)
    requires
        run(propagate, program, p, budget, Ok(h)),
    ensures
        reduced_body(h.statements, program.main),
    decreases budget,
{
    reveal(run);
    if budget > 0 {
        lemma_pass_reduced(program, p);
        match reduce_pass(program, p) {
            Ok(PassView::Again(next)) => {
                let (x, y) = choose|x: TypedFunction, y: TypedFunction|
                    x@ == next.function && #[trigger] call_ensures(propagate, (x,), y)
                        && run(
                        propagate,
                        program,
                        ProgressView { function: y@, ..next },
                        (budget - 1) as nat,
                        Ok(h),
                    );
                lemma_run_reduced(
                    propagate,
                    program,
                    ProgressView { function: y@, ..next },
                    (budget - 1) as nat,
                    h,
                );
            },
            _ => {},
        }
    }
}

/// A reduction that ends with a function ends with a reduced one: it holds
/// no loop, no call inside an expression, and no call statement but to a
/// primitive.
pub proof fn lemma_reduction_reduced<
    P: Fn(TypedFunction) -> TypedFunction,
>(
    propagate: P,
    f: FunctionView,
    generics: Seq<(Seq<char>, u32)>,
    program: ProgramView,
    passes: nat,
    h: FunctionView,
)
    requires
        reduction(propagate, f, generics, program, passes, Ok(h)),
    ensures
        reduced_body(h.statements, program.main),
{
    match ssa_function(f, generics, Map::empty()) {
        None => {},
        Some((t, g)) => {
            if !t.blocked {
                let start = shallow_start(Map::empty());
                lemma_define_all_keeps(start, f.arguments);
                match define_all(start, f.arguments) {
                    None => {},
                    Some((t1, _)) => {
                        lemma_ssa_statements_plain(t1, generic_definitions(generics) + f.statements);
                    },
                }
            } else {
                lemma_run_reduced(
                    propagate,
                    program,
                    ProgressView {
                        function: g,
                        versions: t.versions,
                        substitutions: Map::empty(),
                        pending: t.backups,
                    },
                    passes,
                    h,
                );
            }
        },
    }
}

/// Whether a body holds no loop.
pub open spec fn loop_free(body: Seq<StatementView>) -> bool {
    forall|i: int| 0 <= i < body.len() ==> !(#[trigger] body[i] is For)
}

/// Whether no call statement of a body is a call of a function that the
/// program defines.
pub open spec fn call_free(body: Seq<StatementView>, q: ProgramView) -> bool {
    forall|i: int|
        0 <= i < body.len() && (#[trigger] body[i]) is MultipleDefinition ==> !(resolve(
            q,
            body[i]->MultipleDefinition_1,
        ) matches Some(SymbolView::Here(_)))
}

/// Whether the entry function of a program holds no loop and no call of a
/// function that the program defines.
pub open spec fn reduced_entry(q: ProgramView) -> bool {
    &&& has_entry(q)
    &&& loop_free(main_entry(q).unwrap().1->Here_0.statements)
    &&& call_free(main_entry(q).unwrap().1->Here_0.statements, q)
}

/// No primitive is named `main`.
pub proof fn lemma_embed_name(e: FlatEmbed)
    ensures
        embed_name(e) != "main"@,
{
    reveal_strlit("main");
    reveal_strlit("_UNPACK");
    reveal_strlit("_U8_TO_BITS");
    reveal_strlit("_U16_TO_BITS");
    reveal_strlit("_U32_TO_BITS");
    reveal_strlit("_U8_FROM_BITS");
    reveal_strlit("_U16_FROM_BITS");
    reveal_strlit("_U32_FROM_BITS");
    assert("main"@.len() == 4);
    assert(embed_name(e).len() > 4);
}

/// What a key stands for among functions is one of their entries.
pub proof fn lemma_find_function_member(
    functions: Seq<(FunctionKeyView, SymbolView)>,
    key: FunctionKeyView,
)
    ensures
        match find_function(functions, key) {
            None => true,
            Some(symbol) => exists|i: int|
                0 <= i < functions.len() && #[trigger] functions[i] == (key, symbol),
        },
    decreases functions.len(),
{
    if functions.len() > 0 {
        if functions.last().0 == key {
            assert(functions[functions.len() - 1] == (key, functions.last().1));
        } else {
            lemma_find_function_member(functions.drop_last(), key);
            match find_function(functions.drop_last(), key) {
                None => {},
                Some(symbol) => {
                    let i = choose|i: int|
                        0 <= i < functions.drop_last().len() && #[trigger] functions.drop_last()[i]
                            == (key, symbol);
                    assert(functions[i] == (key, symbol));
                },
            }
        }
    }
}

/// The program that is left of a reduction has a reduced entry function,
/// where the function that it holds is reduced and its key is named `main`.
pub proof fn lemma_reduced_program(
    main: Seq<char>,
    key: FunctionKeyView,
    g: FunctionView,
    field_bits: u32,
)
    requires
        key.id == "main"@,
        reduced_body(g.statements, main),
    ensures
        reduced_entry(reduced_program(main, key, g, field_bits)),
{
    let q = reduced_program(main, key, g, field_bits);
    let entry = (key, SymbolView::Here(g));
    let embeds = embed_entries(main, field_bits);
    let functions = seq![entry] + embeds;
    assert(q.modules.last() == (main, ModuleView { functions }));
    assert(q.modules.len() == 1);
    assert(functions.first() == entry);
    assert(main_entry(q) == Some(entry));
    let body = g.statements;
    assert forall|i: int| 0 <= i < body.len() implies !(#[trigger] body[i] is For) by {
        assert(reduced_statement(body[i], main));
    }
    assert forall|i: int| 0 <= i < body.len() && (#[trigger] body[i]) is MultipleDefinition implies !(
    resolve(q, body[i]->MultipleDefinition_1) matches Some(SymbolView::Here(_))) by {
        assert(reduced_statement(body[i], main));
        let k = body[i]->MultipleDefinition_1;
        let e = choose|e: FlatEmbed| k == #[trigger] embed_key(e, main);
        lemma_embed_name(e);
        assert(k.module == main);
        lemma_find_function_member(functions, k);
        match find_function(functions, k) {
            None => {},
            Some(symbol) => {
                let j = choose|j: int|
                    0 <= j < functions.len() && #[trigger] functions[j] == (k, symbol);
                if j == 0 {
                    assert(functions[0] == entry);
                } else {
                    assert(functions[j] == embeds[j - 1]);
                    assert(embeds[j - 1].1 is Flat);
                }
            },
        }
    }
}

/// The first function named `main` is named `main`.
pub proof fn lemma_find_main(functions: Seq<(FunctionKeyView, SymbolView)>)
    ensures
        find_main(functions) is Some ==> find_main(
            functions,
        ).unwrap().0.id == "main"@,
    decreases functions.len(),
{
    if functions.len() > 0 && functions.first().0.id != "main"@ {
        lemma_find_main(functions.drop_first());
    }
}

/// A program that is the result of a reduction has a reduced entry
/// function: it holds no loop and no call of a function that the program
/// defines, whatever the propagation between the passes hands back.
pub proof fn lemma_program_reduction_reduced<
    P: Fn(TypedFunction) -> TypedFunction,
>(
    propagate: P,
    p: ProgramView,
    field_bits: u32,
    passes: nat,
    q: ProgramView,
)
    requires
        has_entry(p),
        program_reduction(propagate, p, field_bits, passes, Ok(q)),
    ensures
        reduced_entry(q),
{
    let key = main_entry(p).unwrap().0;
    let f = main_entry(p).unwrap().1->Here_0;
    let extended = extended(p, field_bits);
    let h = choose|h: Result<FunctionView, ErrorView>| #[trigger]
        reduction(propagate, f, Seq::empty(), extended, passes, h) && Ok::<
            ProgramView,
            ErrorView,
        >(q) == (match h {
            Ok(g) => Ok::<ProgramView, ErrorView>(
                reduced_program(p.main, key, g, field_bits),
            ),
            Err(e) => Err::<ProgramView, ErrorView>(e),
        });
    let g = h->Ok_0;
    lemma_reduction_reduced(propagate, f, Seq::empty(), extended, passes, g);
    lemma_find_main(find_module(p.modules, p.main).unwrap().functions);
    lemma_reduced_program(p.main, key, g, field_bits);
}

/// Whether the program defines no function under the key of a primitive
/// in its entry module.
pub open spec fn primitives_free(program: ProgramView) -> bool {
    forall|e: FlatEmbed|
        !(resolve(program, #[trigger] embed_key(e, program.main)) matches Some(
            SymbolView::Here(_),
        ))
}

/// A reduced body holds no loop, and no call statement of it is a call of
/// a function that the program defines, where the program defines none
/// under the key of a primitive.
pub proof fn lemma_reduced_body_call_free(body: Seq<StatementView>, program: ProgramView)
    requires
        reduced_body(body, program.main),
        primitives_free(program),
    ensures
        loop_free(body),
        call_free(body, program),
{
    assert forall|i: int| 0 <= i < body.len() implies !(#[trigger] body[i] is For) by {
        assert(reduced_statement(body[i], program.main));
    }
    assert forall|i: int| 0 <= i < body.len() && (#[trigger] body[i]) is MultipleDefinition implies !(
    resolve(program, body[i]->MultipleDefinition_1) matches Some(SymbolView::Here(_))) by {
        assert(reduced_statement(body[i], program.main));
        let k = body[i]->MultipleDefinition_1;
        let e = choose|e: FlatEmbed| k == #[trigger] embed_key(e, program.main);
        assert(k == embed_key(e, program.main));
    }
}

} // verus!
