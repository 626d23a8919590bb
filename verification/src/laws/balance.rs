//! The markers of inlined calls are balanced in a reduced function.

use crate::absy::{
    ExpressionInnerView, ExpressionView, FunctionView, ModuleView, ProgramView, StatementView,
    SymbolView, TypedFunction, VariableView,
};
use crate::apply::{apply_statement, apply_statements, lemma_apply_for};
use crate::driver::{reduce_pass, reduction, run, PassView, ProgressView};
use crate::embed::{embed_entries, embed_key};
use crate::error::ErrorView;
use crate::identifier::{CoreIdentifierView, IdentifierView};
use crate::inline::{
    call_slots, concrete_key, inline_function, inlining, input_bindings, non_returns,
    output_bindings, returned_values, CacheView, InlineErrorView,
};
use crate::laws::reduced::{lemma_find_function_member, lemma_find_main};
use crate::program::{
    extended, find_main, has_entry, main_entry, program_reduction, reduced_program,
};
use crate::reducer::{
    literal_bounds,
    index_literal, reduce_call, reduce_expression, reduce_expressions, reduce_statement,
    reduce_statement_inner, reduce_statements, reducer_start, result_definitions, unroll,
    ReducerView,
};
use crate::resolve::{find_function, find_module, resolve};
use crate::shallow_ssa::{
    define_all, generic_definitions, shallow_start, ssa_function, ssa_statement, ssa_statements,
    ShallowView,
};
use crate::substitution::{compressed_all, SubstitutionsView};
use crate::types::{FunctionKeyView, TypeView};
use crate::unify::{specialize, AssignmentView};
use crate::versions::{next_version, shifted, VersionsView};
use vstd::prelude::*;

verus! {

/// How many calls are open after one more statement, where `depth` were
/// open before it. `None` where the statement closes a call and none is
/// open.
pub open spec fn depth_step(s: StatementView, depth: int) -> Option<int> {
    match s {
        StatementView::PushCallLog(_, _) => Some(depth + 1),
        StatementView::PopCallLog => if depth > 0 {
            Some(depth - 1)
        } else {
            None
        },
        _ => Some(depth),
    }
}

/// How many calls are open after a body, read from its first statement to
/// its last, where `depth` were open before it. `None` where a statement
/// closes a call and none is open.
pub open spec fn depth_after(body: Seq<StatementView>, depth: int) -> Option<int>
    decreases body.len(),
{
    if body.len() == 0 {
        Some(depth)
    } else {
        match depth_after(body.drop_last(), depth) {
            None => None,
            Some(d) => depth_step(body.last(), d),
        }
    }
}

/// Whether every opening marker of a body is followed by its closing
/// marker, and every closing marker closes an open call.
pub open spec fn balanced(body: Seq<StatementView>) -> bool {
    depth_after(body, 0) == Some(0int)
}

/// Whether a body leaves as many calls open as it finds, however many
/// these are.
pub open spec fn neutral(body: Seq<StatementView>) -> bool {
    forall|d: int| d >= 0 ==> #[trigger] depth_after(body, d) == Some(d)
}

/// Whether the bodies of the loops in a statement are balanced, the loops
/// inside them included.
pub open spec fn bracketed(s: StatementView) -> bool
    decreases s,
{
    match s {
        StatementView::For(_, _, _, body) => balanced(body) && forall|i: int|
            0 <= i < body.len() ==> bracketed(#[trigger] body[i]),
        _ => true,
    }
}

/// Whether the bodies of the loops in every statement of a body are
/// balanced.
pub open spec fn all_bracketed(body: Seq<StatementView>) -> bool {
    forall|i: int| 0 <= i < body.len() ==> bracketed(#[trigger] body[i])
}

/// Whether a body is balanced, and so are the bodies of the loops in it.
pub open spec fn well_bracketed(body: Seq<StatementView>) -> bool {
    balanced(body) && all_bracketed(body)
}

/// Reading two bodies one after the other is reading the first, then the
/// second from where the first ended.
pub proof fn lemma_depth_concat(a: Seq<StatementView>, b: Seq<StatementView>, d: int)
    ensures
        depth_after(a + b, d) == (match depth_after(a, d) {
            None => None,
            Some(d1) => depth_after(b, d1),
        }),
    decreases b.len(),
{
    if b.len() == 0 {
        assert(a + b =~= a);
    } else {
        assert((a + b).drop_last() =~= a + b.drop_last());
        assert((a + b).last() == b.last());
        lemma_depth_concat(a, b.drop_last(), d);
    }
}

/// A body reads the same way with more calls open before it.
pub proof fn lemma_depth_shift(body: Seq<StatementView>, d: int, k: int)
    requires
        k >= 0,
        d >= 0,
        depth_after(body, d) is Some,
    ensures
        depth_after(body, d + k) == Some(depth_after(body, d)->0 + k),
        depth_after(body, d)->0 >= 0,
    decreases body.len(),
{
    if body.len() > 0 {
        lemma_depth_shift(body.drop_last(), d, k);
    }
}

/// A balanced body is neutral.
pub proof fn lemma_balanced_neutral(body: Seq<StatementView>)
    requires
        balanced(body),
    ensures
        neutral(body),
{
    assert forall|d: int| d >= 0 implies #[trigger] depth_after(body, d) == Some(d) by {
        lemma_depth_shift(body, 0, d);
    }
}

/// Two neutral bodies one after the other are neutral.
pub proof fn lemma_neutral_concat(a: Seq<StatementView>, b: Seq<StatementView>)
    requires
        neutral(a),
        neutral(b),
    ensures
        neutral(a + b),
{
    assert forall|d: int| d >= 0 implies #[trigger] depth_after(a + b, d) == Some(d) by {
        lemma_depth_concat(a, b, d);
        assert(depth_after(a, d) == Some(d));
        assert(depth_after(b, d) == Some(d));
    }
}

/// Bodies whose loops are balanced, one after the other, have balanced
/// loops.
pub proof fn lemma_bracketed_concat(a: Seq<StatementView>, b: Seq<StatementView>)
    requires
        all_bracketed(a),
        all_bracketed(b),
    ensures
        all_bracketed(a + b),
{
    assert forall|i: int| 0 <= i < (a + b).len() implies bracketed(#[trigger] (a + b)[i]) by {
        if i < a.len() {
            assert((a + b)[i] == a[i]);
        } else {
            assert((a + b)[i] == b[i - a.len()]);
        }
    }
}

/// Whether no statement of a body is a marker.
pub open spec fn no_markers(body: Seq<StatementView>) -> bool {
    forall|i: int|
        0 <= i < body.len() ==> !((#[trigger] body[i]) is PushCallLog) && !(body[i] is PopCallLog)
}

/// A body without markers is neutral.
pub proof fn lemma_no_markers_neutral(body: Seq<StatementView>)
    requires
        no_markers(body),
    ensures
        neutral(body),
    decreases body.len(),
{
    if body.len() > 0 {
        assert(no_markers(body.drop_last())) by {
            assert forall|i: int| 0 <= i < body.drop_last().len() implies !((
            #[trigger] body.drop_last()[i]) is PushCallLog) && !(body.drop_last()[i] is PopCallLog) by {
                assert(body.drop_last()[i] == body[i]);
            }
        }
        lemma_no_markers_neutral(body.drop_last());
        assert(!(body[body.len() - 1] is PushCallLog) && !(body[body.len() - 1] is PopCallLog));
        assert forall|d: int| d >= 0 implies #[trigger] depth_after(body, d) == Some(d) by {
            assert(depth_after(body.drop_last(), d) == Some(d));
        }
    } else {
        assert forall|d: int| d >= 0 implies #[trigger] depth_after(body, d) == Some(d) by {}
    }
}

/// The shallow transformation keeps what a statement does to the open
/// calls, and the bodies of its loops.
pub proof fn lemma_ssa_statement_brackets(t: ShallowView, s: StatementView)
    ensures
        match ssa_statement(t, s) {
            None => true,
            Some((_, s1)) => {
                &&& forall|d: int| depth_step(s1, d) == depth_step(s, d)
                &&& bracketed(s) ==> bracketed(s1)
            },
        },
{
}

/// The shallow transformation keeps what a body does to the open calls,
/// and the bodies of its loops.
pub proof fn lemma_ssa_statements_brackets(t: ShallowView, body: Seq<StatementView>)
    ensures
        match ssa_statements(t, body) {
            None => true,
            Some((_, out)) => {
                &&& forall|d: int| depth_after(out, d) == depth_after(body, d)
                &&& all_bracketed(body) ==> all_bracketed(out)
                &&& out.len() == body.len()
            },
        },
    decreases body.len(),
{
    if body.len() > 0 {
        lemma_ssa_statements_brackets(t, body.drop_last());
        match ssa_statements(t, body.drop_last()) {
            None => {},
            Some((t1, out)) => {
                lemma_ssa_statement_brackets(t1, body.last());
                match ssa_statement(t1, body.last()) {
                    None => {},
                    Some((t2, s)) => {
                        let all = out.push(s);
                        assert(all.drop_last() =~= out);
                        assert forall|d: int| depth_after(all, d) == depth_after(body, d) by {
                            assert(depth_after(out, d) == depth_after(body.drop_last(), d));
                        }
                        if all_bracketed(body) {
                            assert forall|i: int| 0 <= i < all.len() implies bracketed(
                                #[trigger] all[i],
                            ) by {
                                if i < out.len() {
                                    assert(body.drop_last()[i] == body[i]);
                                    assert(all_bracketed(body.drop_last())) by {
                                        assert forall|j: int|
                                            0 <= j < body.drop_last().len() implies bracketed(
                                            #[trigger] body.drop_last()[j],
                                        ) by {
                                            assert(body.drop_last()[j] == body[j]);
                                        }
                                    }
                                    assert(all[i] == out[i]);
                                } else {
                                    assert(bracketed(body[body.len() - 1]));
                                }
                            }
                        }
                    },
                }
            },
        }
    } else {
        assert forall|d: int|
            depth_after(ssa_statements(t, body).unwrap().1, d) == depth_after(body, d) by {}
    }
}

/// Leaving out the `Return` statements keeps what a body does to the open
/// calls, and the bodies of its loops.
pub proof fn lemma_non_returns_brackets(body: Seq<StatementView>)
    ensures
        forall|d: int| depth_after(non_returns(body), d) == depth_after(body, d),
        all_bracketed(body) ==> all_bracketed(non_returns(body)),
    decreases body.len(),
{
    if body.len() > 0 {
        lemma_non_returns_brackets(body.drop_last());
        let head = non_returns(body.drop_last());
        if !(body.last() is Return) {
            assert(head.push(body.last()).drop_last() =~= head);
        }
        assert forall|d: int| depth_after(non_returns(body), d) == depth_after(body, d) by {
            assert(depth_after(head, d) == depth_after(body.drop_last(), d));
        }
        if all_bracketed(body) {
            assert(all_bracketed(body.drop_last())) by {
                assert forall|j: int| 0 <= j < body.drop_last().len() implies bracketed(
                    #[trigger] body.drop_last()[j],
                ) by {
                    assert(body.drop_last()[j] == body[j]);
                }
            }
            assert(bracketed(body[body.len() - 1]));
            let out = non_returns(body);
            assert forall|i: int| 0 <= i < out.len() implies bracketed(#[trigger] out[i]) by {
                if i < head.len() {
                    assert(out[i] == head[i]);
                }
            }
        }
    } else {
        assert forall|d: int| depth_after(non_returns(body), d) == depth_after(body, d) by {}
    }
}

/// A body without markers and loops has balanced loops.
pub proof fn lemma_definitions_bracketed(body: Seq<StatementView>)
    requires
        forall|i: int| 0 <= i < body.len() ==> (#[trigger] body[i]) is Definition,
    ensures
        neutral(body),
        all_bracketed(body),
{
    assert(no_markers(body));
    lemma_no_markers_neutral(body);
}

/// A neutral body between an opening and a closing marker is neutral.
pub proof fn lemma_wrapped_neutral(key: FunctionKeyView, assignment: AssignmentView, inner: Seq<StatementView>)
    requires
        neutral(inner),
    ensures
        neutral(
            seq![StatementView::PushCallLog(key, assignment)] + inner
                + seq![StatementView::PopCallLog],
        ),
{
    let a = seq![StatementView::PushCallLog(key, assignment)];
    let c = seq![StatementView::PopCallLog];
    assert forall|d: int| d >= 0 implies #[trigger] depth_after(a + inner + c, d) == Some(d) by {
        lemma_depth_concat(a + inner, c, d);
        lemma_depth_concat(a, inner, d);
        assert(a.drop_last() =~= Seq::empty());
        assert(depth_after(a.drop_last(), d) == Some(d));
        assert(depth_after(a, d) == Some(d + 1));
        assert(depth_after(inner, d + 1) == Some(d + 1));
        assert(c.drop_last() =~= Seq::empty());
        assert(depth_after(c.drop_last(), d + 1) == Some(d + 1));
        assert(depth_after(c, d + 1) == Some(d));
    }
}

/// Whether the body of the function that a symbol stands for is well
/// bracketed.
pub open spec fn bracketed_symbol(s: SymbolView) -> bool {
    s matches SymbolView::Here(f) ==> well_bracketed(f.statements)
}

/// Whether the bodies of the functions of a module are well bracketed.
pub open spec fn bracketed_module(m: ModuleView) -> bool {
    forall|j: int| 0 <= j < m.functions.len() ==> bracketed_symbol((#[trigger] m.functions[j]).1)
}

/// Whether the bodies of the functions of a program are well bracketed.
pub open spec fn bracketed_program(p: ProgramView) -> bool {
    forall|i: int| 0 <= i < p.modules.len() ==> bracketed_module((#[trigger] p.modules[i]).1)
}

/// The module of a name is one of the modules.
pub proof fn lemma_find_module_member(modules: Seq<(Seq<char>, ModuleView)>, name: Seq<char>)
    ensures
        match find_module(modules, name) {
            None => true,
            Some(m) => exists|i: int| 0 <= i < modules.len() && (#[trigger] modules[i]).1 == m,
        },
    decreases modules.len(),
{
    if modules.len() > 0 {
        if modules.last().0 == name {
            assert(modules[modules.len() - 1].1 == modules.last().1);
        } else {
            lemma_find_module_member(modules.drop_last(), name);
            match find_module(modules.drop_last(), name) {
                None => {},
                Some(m) => {
                    let i = choose|i: int|
                        0 <= i < modules.drop_last().len() && (#[trigger] modules.drop_last()[i]).1
                            == m;
                    assert(modules[i].1 == m);
                },
            }
        }
    }
}

/// What a key stands for in a program with well bracketed functions has a
/// well bracketed body.
pub proof fn lemma_resolve_bracketed(p: ProgramView, key: FunctionKeyView)
    requires
        bracketed_program(p),
    ensures
        match resolve(p, key) {
            None => true,
            Some(s) => bracketed_symbol(s),
        },
{
    lemma_find_module_member(p.modules, key.module);
    match find_module(p.modules, key.module) {
        None => {},
        Some(m) => {
            let i = choose|i: int| 0 <= i < p.modules.len() && (#[trigger] p.modules[i]).1 == m;
            assert(bracketed_module(p.modules[i].1));
            lemma_find_function_member(m.functions, key);
            match find_function(m.functions, key) {
                None => {},
                Some(s) => {
                    let j = choose|j: int|
                        0 <= j < m.functions.len() && #[trigger] m.functions[j] == (key, s);
                    assert(bracketed_symbol(m.functions[j].1));
                },
            }
        },
    }
}

/// The statements of an inlined function are neutral and have balanced
/// loops, where the body of the function is well bracketed.
pub proof fn lemma_inline_function_brackets(
    f: FunctionView,
    key: FunctionKeyView,
    assignment: AssignmentView,
    args: Seq<ExpressionView>,
    types: Seq<TypeView>,
    cache: CacheView,
    versions: VersionsView,
)
    requires
        well_bracketed(f.statements),
    ensures
        match inline_function(f, key, assignment, args, types, cache, versions).result {
            Ok(inlined) => neutral(inlined.statements) && all_bracketed(inlined.statements),
            Err(_) => true,
        },
{
    match ssa_function(f, assignment, versions) {
        None => {},
        Some((t, g)) => {
            let returned = returned_values(g.statements);
            if returned.len() == 1 && returned[0].len() == types.len() {
                match call_slots(t.versions, types) {
                    None => {},
                    Some((v2, slots)) => {
                        let generics = generic_definitions(assignment);
                        let t1 = define_all(shallow_start(versions), f.arguments).unwrap().0;
                        lemma_ssa_statements_brackets(t1, generics + f.statements);
                        lemma_definitions_bracketed(generics);
                        lemma_balanced_neutral(f.statements);
                        lemma_neutral_concat(generics, f.statements);
                        lemma_bracketed_concat(generics, f.statements);
                        assert(neutral(g.statements)) by {
                            assert forall|d: int| d >= 0 implies #[trigger] depth_after(
                                g.statements,
                                d,
                            ) == Some(d) by {
                                assert(depth_after(generics + f.statements, d) == Some(d));
                            }
                        }
                        lemma_non_returns_brackets(g.statements);
                        let b = input_bindings(g.arguments, args);
                        let c = non_returns(g.statements);
                        let d = output_bindings(slots, returned[0]);
                        assert(neutral(c)) by {
                            assert forall|k: int| k >= 0 implies #[trigger] depth_after(c, k)
                                == Some(k) by {
                                assert(depth_after(g.statements, k) == Some(k));
                            }
                        }
                        lemma_definitions_bracketed(b);
                        lemma_definitions_bracketed(d);
                        lemma_neutral_concat(b, c);
                        lemma_neutral_concat(b + c, d);
                        lemma_bracketed_concat(b, c);
                        lemma_bracketed_concat(b + c, d);
                        lemma_wrapped_neutral(key, assignment, b + c + d);
                        let a = seq![StatementView::PushCallLog(key, assignment)];
                        let e = seq![StatementView::PopCallLog];
                        lemma_bracketed_concat(a, b + c + d);
                        lemma_bracketed_concat(a + (b + c + d), e);
                        assert(a + (b + c + d) + e =~= a + b + c + d + e);
                    },
                }
            }
        },
    }
}

/// The statements of an inlined function are one pair of markers around
/// what stands for the body: the first opens the call with its key and the
/// values of its generic parameters, the last closes it, and what is
/// between leaves no call open, where the body of the function is balanced.
pub proof fn lemma_inline_function_pair(
    f: FunctionView,
    key: FunctionKeyView,
    assignment: AssignmentView,
    args: Seq<ExpressionView>,
    types: Seq<TypeView>,
    cache: CacheView,
    versions: VersionsView,
)
    requires
        balanced(f.statements),
    ensures
        match inline_function(f, key, assignment, args, types, cache, versions).result {
            Ok(inlined) => {
                let n = inlined.statements.len() as int;
                &&& n >= 2
                &&& inlined.statements[0] == StatementView::PushCallLog(key, assignment)
                &&& inlined.statements[n - 1] == StatementView::PopCallLog
                &&& neutral(inlined.statements.subrange(1, n - 1))
            },
            Err(_) => true,
        },
{
    match ssa_function(f, assignment, versions) {
        None => {},
        Some((t, g)) => {
            let returned = returned_values(g.statements);
            if returned.len() == 1 && returned[0].len() == types.len() {
                match crate::inline::call_slots(t.versions, types) {
                    None => {},
                    Some((v2, slots)) => {
                        let generics = generic_definitions(assignment);
                        let t1 = define_all(shallow_start(versions), f.arguments).unwrap().0;
                        lemma_ssa_statements_brackets(t1, generics + f.statements);
                        lemma_definitions_bracketed(generics);
                        lemma_balanced_neutral(f.statements);
                        lemma_neutral_concat(generics, f.statements);
                        assert(neutral(g.statements)) by {
                            assert forall|d: int| d >= 0 implies #[trigger] depth_after(
                                g.statements,
                                d,
                            ) == Some(d) by {
                                assert(depth_after(generics + f.statements, d) == Some(d));
                            }
                        }
                        lemma_non_returns_brackets(g.statements);
                        let b = input_bindings(g.arguments, args);
                        let c = non_returns(g.statements);
                        let d = output_bindings(slots, returned[0]);
                        assert(neutral(c)) by {
                            assert forall|k: int| k >= 0 implies #[trigger] depth_after(c, k)
                                == Some(k) by {
                                assert(depth_after(g.statements, k) == Some(k));
                            }
                        }
                        lemma_definitions_bracketed(b);
                        lemma_definitions_bracketed(d);
                        lemma_neutral_concat(b, c);
                        lemma_neutral_concat(b + c, d);
                        let a = seq![StatementView::PushCallLog(key, assignment)];
                        let e = seq![StatementView::PopCallLog];
                        let all = a + b + c + d + e;
                        assert(all.subrange(1, all.len() - 1) =~= b + c + d);
                    },
                }
            }
        },
    }
}

/// The statements of an inlined call are neutral and have balanced loops,
/// where the bodies of the functions of the program are well bracketed.
pub proof fn lemma_inlining_brackets(
    key: FunctionKeyView,
    args: Seq<ExpressionView>,
    types: Seq<TypeView>,
    p: ProgramView,
    cache: CacheView,
    versions: VersionsView,
)
    requires
        bracketed_program(p),
    ensures
        match inlining(key, args, types, p, cache, versions).result {
            Ok(inlined) => neutral(inlined.statements) && all_bracketed(inlined.statements),
            Err(_) => true,
        },
{
    lemma_resolve_bracketed(p, key);
    match resolve(p, key) {
        Some(SymbolView::Here(f)) => {
            let concrete = concrete_key(key, args, types);
            match specialize(key.signature, concrete.signature) {
                None => {},
                Some(assignment) => {
                    lemma_inline_function_brackets(f, key, assignment, args, types, cache, versions);
                    lemma_no_markers_neutral(Seq::empty());
                },
            }
        },
        _ => {},
    }
}

/// The rounds of a loop are neutral and have balanced loops, where the
/// body of the loop is well bracketed.
pub proof fn lemma_unroll_brackets(
    t: ShallowView,
    v: VariableView,
    from: u128,
    to: u128,
    body: Seq<StatementView>,
)
    requires
        well_bracketed(body),
    ensures
        match unroll(t, v, from, to, body) {
            None => true,
            Some((_, out)) => neutral(out) && all_bracketed(out),
        },
    decreases to,
{
    if from < to {
        lemma_unroll_brackets(t, v, from, (to - 1) as u128, body);
        match unroll(t, v, from, (to - 1) as u128, body) {
            None => {},
            Some((t1, out)) => {
                let head = seq![StatementView::Definition(v, index_literal((to - 1) as u128))];
                lemma_ssa_statements_brackets(t1, head + body);
                match ssa_statements(t1, head + body) {
                    None => {},
                    Some((t2, round)) => {
                        lemma_definitions_bracketed(head);
                        lemma_balanced_neutral(body);
                        lemma_neutral_concat(head, body);
                        lemma_bracketed_concat(head, body);
                        assert(neutral(round)) by {
                            assert forall|d: int| d >= 0 implies #[trigger] depth_after(round, d)
                                == Some(d) by {
                                assert(depth_after(head + body, d) == Some(d));
                            }
                        }
                        lemma_neutral_concat(out, round);
                        lemma_bracketed_concat(out, round);
                    },
                }
            },
        }
    } else {
        lemma_no_markers_neutral(Seq::empty());
    }
}

/// What a pass keeps true of its reducer: the program has well bracketed
/// functions, and the buffer is neutral with balanced loops.
pub open spec fn orderly(st: ReducerView) -> bool {
    &&& bracketed_program(st.program)
    &&& neutral(st.buffer)
    &&& all_bracketed(st.buffer)
}

/// Folding a call keeps the reducer orderly.
pub proof fn lemma_reduce_call_brackets(
    st: ReducerView,
    key: FunctionKeyView,
    args: Seq<ExpressionView>,
    ty: TypeView,
)
    requires
        orderly(st),
    ensures
        match reduce_call(st, key, args, ty) {
            Err(_) => true,
            Ok((st1, _)) => orderly(st1) && st1.program == st.program,
        },
{
    let o = inlining(key, args, seq![ty], st.program, st.cache, st.versions);
    lemma_inlining_brackets(key, args, seq![ty], st.program, st.cache, st.versions);
    match o.result {
        Ok(inlined) => {
            lemma_neutral_concat(st.buffer, inlined.statements);
            lemma_bracketed_concat(st.buffer, inlined.statements);
        },
        Err(InlineErrorView::Flat(embed, a, t)) => {
            let id = CoreIdentifierView::Call(0);
            match next_version(o.versions, id) {
                None => {},
                Some(n) => {
                    let var = VariableView {
                        id: IdentifierView { id, version: n },
                        ty,
                    };
                    let call = seq![
                        StatementView::MultipleDefinition(
                            seq![var],
                            embed_key(embed, st.program.main),
                            a,
                            t,
                        ),
                    ];
                    assert(no_markers(call));
                    lemma_no_markers_neutral(call);
                    lemma_neutral_concat(st.buffer, call);
                    lemma_bracketed_concat(st.buffer, call);
                    assert(st.buffer.push(call[0]) =~= st.buffer + call);
                },
            }
        },
        _ => {},
    }
}

/// Folding an expression keeps the reducer orderly.
pub proof fn lemma_reduce_expression_brackets(st: ReducerView, e: ExpressionView)
    requires
        orderly(st),
    ensures
        match reduce_expression(st, e) {
            Err(_) => true,
            Ok((st1, _)) => orderly(st1) && st1.program == st.program,
        },
    decreases e,
{
    match e.inner {
        ExpressionInnerView::FunctionCall(key, args) => {
            lemma_reduce_expressions_brackets(st, args);
            match reduce_expressions(st, args) {
                Err(_) => {},
                Ok((st1, args1)) => {
                    lemma_reduce_call_brackets(st1, key, args1, e.ty);
                },
            }
        },
        ExpressionInnerView::Values(es) => {
            lemma_reduce_expressions_brackets(st, es);
        },
        ExpressionInnerView::Operation(_, es) => {
            lemma_reduce_expressions_brackets(st, es);
        },
        _ => {},
    }
}

/// Folding expressions keeps the reducer orderly.
pub proof fn lemma_reduce_expressions_brackets(st: ReducerView, es: Seq<ExpressionView>)
    requires
        orderly(st),
    ensures
        match reduce_expressions(st, es) {
            Err(_) => true,
            Ok((st1, _)) => orderly(st1) && st1.program == st.program,
        },
    decreases es,
{
    if es.len() > 0 {
        lemma_reduce_expressions_brackets(st, es.drop_last());
        match reduce_expressions(st, es.drop_last()) {
            Err(_) => {},
            Ok((st1, _)) => {
                lemma_reduce_expression_brackets(st1, es.last());
            },
        }
    }
}

/// One statement does to the open calls what its step says.
pub proof fn lemma_depth_single(s: StatementView, d: int)
    ensures
        depth_after(seq![s], d) == depth_step(s, d),
{
    assert(seq![s].drop_last() =~= Seq::empty());
    assert(depth_after(seq![s].drop_last(), d) == Some(d));
}

/// What a statement becomes in a pass does to the open calls what the
/// statement did, and has balanced loops.
pub proof fn lemma_reduce_statement_brackets(st: ReducerView, s: StatementView)
    requires
        orderly(st),
        bracketed(s),
    ensures
        match reduce_statement(st, s) {
            Err(_) => true,
            Ok((st1, out)) => {
                &&& orderly(st1)
                &&& st1.program == st.program
                &&& all_bracketed(out)
                &&& forall|d: int| d >= 0 ==> #[trigger] depth_after(out, d) == depth_step(s, d)
            },
        },
{
    match s {
        StatementView::MultipleDefinition(vars, key, args, types) => {
            lemma_reduce_expressions_brackets(st, args);
            match reduce_expressions(st, args) {
                Err(_) => {},
                Ok((st1, args1)) => {
                    let o = inlining(key, args1, types, st1.program, st1.cache, st1.versions);
                    lemma_inlining_brackets(key, args1, types, st1.program, st1.cache, st1.versions);
                    match o.result {
                        Ok(inlined) => {
                            let definitions = result_definitions(vars, inlined.expressions);
                            lemma_definitions_bracketed(definitions);
                            lemma_neutral_concat(inlined.statements, definitions);
                            lemma_bracketed_concat(inlined.statements, definitions);
                            let kept = seq![
                                StatementView::MultipleDefinition(vars, key, args1, types),
                            ];
                            assert(no_markers(kept));
                            lemma_no_markers_neutral(kept);
                            lemma_neutral_concat(inlined.statements, kept);
                            lemma_bracketed_concat(inlined.statements, kept);
                        },
                        _ => {},
                    }
                },
            }
        },
        StatementView::For(v, from, to, body) => {
            match literal_bounds(from, to) {
                Some((lo, hi)) => {
                    let now = shifted(st.versions, 1);
                    lemma_unroll_brackets(shallow_start(now), v, lo, hi, body);
                },
                None => {},
            }
        },
        StatementView::Definition(v, e) => {
            lemma_reduce_expression_brackets(st, e);
        },
        StatementView::Return(es) => {
            lemma_reduce_expressions_brackets(st, es);
        },
        _ => {},
    }
    match reduce_statement_inner(st, s) {
        Err(_) => {},
        Ok((st1, res)) => {
            assert(orderly(st1));
            assert(all_bracketed(res));
            assert forall|d: int| d >= 0 implies #[trigger] depth_after(res, d) == depth_step(
                s,
                d,
            ) by {
                if res.len() == 1 {
                    lemma_depth_single(res[0], d);
                    assert(res =~= seq![res[0]]);
                }
            }
            lemma_bracketed_concat(st1.buffer, res);
            assert forall|d: int| d >= 0 implies #[trigger] depth_after(st1.buffer + res, d)
                == depth_step(s, d) by {
                lemma_depth_concat(st1.buffer, res, d);
                assert(depth_after(st1.buffer, d) == Some(d));
            }
            lemma_no_markers_neutral(Seq::empty());
        },
    }
}

/// What a body becomes in a pass does to the open calls what the body did,
/// and has balanced loops.
pub proof fn lemma_reduce_statements_brackets(st: ReducerView, body: Seq<StatementView>, d: int)
    requires
        orderly(st),
        all_bracketed(body),
        d >= 0,
    ensures
        match reduce_statements(st, body) {
            Err(_) => true,
            Ok((st1, out)) => {
                &&& orderly(st1)
                &&& st1.program == st.program
                &&& all_bracketed(out)
                &&& depth_after(out, d) == depth_after(body, d)
            },
        },
    decreases body.len(),
{
    if body.len() > 0 {
        assert(all_bracketed(body.drop_last())) by {
            assert forall|j: int| 0 <= j < body.drop_last().len() implies bracketed(
                #[trigger] body.drop_last()[j],
            ) by {
                assert(body.drop_last()[j] == body[j]);
            }
        }
        assert(bracketed(body[body.len() - 1]));
        lemma_reduce_statements_brackets(st, body.drop_last(), d);
        match reduce_statements(st, body.drop_last()) {
            Err(_) => {},
            Ok((st1, out)) => {
                lemma_reduce_statement_brackets(st1, body.last());
                match reduce_statement(st1, body.last()) {
                    Err(_) => {},
                    Ok((st2, more)) => {
                        lemma_bracketed_concat(out, more);
                        lemma_depth_concat(out, more, d);
                        match depth_after(body.drop_last(), d) {
                            None => {},
                            Some(d1) => {
                                lemma_depth_shift(body.drop_last(), d, 0);
                                assert(depth_after(more, d1) == depth_step(body.last(), d1));
                            },
                        }
                    },
                }
            },
        }
    }
}

/// Applying a substitution keeps what a statement does to the open calls,
/// and the balance of the bodies of its loops.
pub proof fn lemma_apply_statement_brackets(s: SubstitutionsView, st: StatementView)
    ensures
        forall|d: int| depth_step(apply_statement(s, st), d) == depth_step(st, d),
        bracketed(st) ==> bracketed(apply_statement(s, st)),
    decreases st,
{
    match st {
        StatementView::For(v, from, to, body) => {
            lemma_apply_for(s, st);
            if bracketed(st) {
                lemma_apply_statements_brackets(s, body);
            }
        },
        _ => {},
    }
}

/// Applying a substitution keeps what a body does to the open calls, and
/// the balance of the bodies of its loops.
pub proof fn lemma_apply_statements_brackets(s: SubstitutionsView, body: Seq<StatementView>)
    ensures
        forall|d: int| depth_after(apply_statements(s, body), d) == depth_after(body, d),
        all_bracketed(body) ==> all_bracketed(apply_statements(s, body)),
    decreases body,
{
    let out = apply_statements(s, body);
    if body.len() > 0 {
        lemma_apply_statements_brackets(s, body.drop_last());
        lemma_apply_statement_brackets(s, body.last());
        assert(out.drop_last() =~= apply_statements(s, body.drop_last()));
        assert(out.last() == apply_statement(s, body.last()));
        assert forall|d: int| depth_after(out, d) == depth_after(body, d) by {
            assert(depth_after(out.drop_last(), d) == depth_after(body.drop_last(), d));
        }
    } else {
        assert forall|d: int| depth_after(out, d) == depth_after(body, d) by {}
    }
    if all_bracketed(body) {
        assert forall|i: int| 0 <= i < out.len() implies bracketed(#[trigger] out[i]) by {
            assert(bracketed(body[i]));
            lemma_apply_statement_brackets(s, body[i]);
        }
    }
}

/// A pass over a well bracketed body leaves a well bracketed body, where
/// the functions of the program are well bracketed.
pub proof fn lemma_pass_brackets(program: ProgramView, p: ProgressView)
    requires
        bracketed_program(program),
        well_bracketed(p.function.statements),
    ensures
        match reduce_pass(program, p) {
            Err(_) => true,
            Ok(PassView::Done(f)) => well_bracketed(f.statements),
            Ok(PassView::Again(next)) => well_bracketed(next.function.statements),
        },
{
    let start = reducer_start(program, p.versions, p.substitutions, p.pending);
    lemma_no_markers_neutral(Seq::empty());
    lemma_reduce_statements_brackets(start, p.function.statements, 0);
    match reduce_statements(start, p.function.statements) {
        Err(_) => {},
        Ok((st, statements)) => {
            lemma_apply_statements_brackets(
                compressed_all(st.substitutions),
                statements,
            );
            lemma_apply_statements_brackets(st.substitutions, statements);
        },
    }
}

/// Whether `propagate` hands back a well bracketed body for a well
/// bracketed one.
pub open spec fn keeps_brackets<P: Fn(TypedFunction) -> TypedFunction>(propagate: P) -> bool {
    forall|x: TypedFunction, y: TypedFunction| #[trigger]
        call_ensures(propagate, (x,), y) && well_bracketed(x@.statements) ==> well_bracketed(
            y@.statements,
        )
}

/// A run from a well bracketed body ends with a well bracketed body, where
/// the functions of the program are well bracketed and the propagation
/// keeps bodies so.
pub proof fn lemma_run_brackets<P: Fn(TypedFunction) -> TypedFunction>(
    propagate: P,
    program: ProgramView,
    p: ProgressView,
    budget: nat,
    h: FunctionView,
)
    requires
        keeps_brackets(propagate),
        bracketed_program(program),
        well_bracketed(p.function.statements),
        run(propagate, program, p, budget, Ok(h)),
    ensures
        well_bracketed(h.statements),
    decreases budget,
{
    reveal(run);
    if budget > 0 {
        lemma_pass_brackets(program, p);
        match reduce_pass(program, p) {
            Ok(PassView::Again(next)) => {
                let (x, y) = choose|x: TypedFunction, y: TypedFunction|
                    x@ == next.function && #[trigger] call_ensures(propagate, (x,), y) && run(
                        propagate,
                        program,
                        ProgressView { function: y@, ..next },
                        (budget - 1) as nat,
                        Ok(h),
                    );
                lemma_run_brackets(
                    propagate,
                    program,
                    ProgressView { function: y@, ..next },
                    (budget - 1) as nat,
                    h,
                );
            },
            _ => {},
        }
    }
}

/// The reduction of a function with a well bracketed body ends with a well
/// bracketed body, where the functions of the program are well bracketed
/// and the propagation keeps bodies so.
pub proof fn lemma_reduction_brackets<P: Fn(TypedFunction) -> TypedFunction>(
    propagate: P,
    f: FunctionView,
    generics: Seq<(Seq<char>, u32)>,
    program: ProgramView,
    passes: nat,
    h: FunctionView,
)
    requires
        keeps_brackets(propagate),
        bracketed_program(program),
        well_bracketed(f.statements),
        reduction(propagate, f, generics, program, passes, Ok(h)),
    ensures
        well_bracketed(h.statements),
{
    match ssa_function(f, generics, Map::empty()) {
        None => {},
        Some((t, g)) => {
            let definitions = generic_definitions(generics);
            let t1 = define_all(shallow_start(Map::empty()), f.arguments).unwrap().0;
            lemma_ssa_statements_brackets(t1, definitions + f.statements);
            lemma_definitions_bracketed(definitions);
            lemma_balanced_neutral(f.statements);
            lemma_neutral_concat(definitions, f.statements);
            lemma_bracketed_concat(definitions, f.statements);
            assert(depth_after(definitions + f.statements, 0) == Some(0int));
            assert(well_bracketed(g.statements));
            if t.blocked {
                lemma_run_brackets(
                    propagate,
                    program,
                    ProgressView {
                        function: g,
                        versions: t.versions,
                        substitutions: Map::empty(),
                        pending: t.backups,
                    },
                    passes,
                    h,
                );
            }
        },
    }
}

/// A program with the primitives added has well bracketed functions where
/// the program has.
pub proof fn lemma_extended_bracketed(p: ProgramView, field_bits: u32)
    requires
        bracketed_program(p),
    ensures
        bracketed_program(extended(p, field_bits)),
{
    let q = extended(p, field_bits);
    let embeds = embed_entries(p.main, field_bits);
    assert forall|i: int| 0 <= i < q.modules.len() implies bracketed_module(
        (#[trigger] q.modules[i]).1,
    ) by {
        assert(bracketed_module(p.modules[i].1));
        let m = q.modules[i].1;
        let old = p.modules[i].1;
        assert forall|j: int| 0 <= j < m.functions.len() implies bracketed_symbol(
            (#[trigger] m.functions[j]).1,
        ) by {
            if j < old.functions.len() {
                assert(m.functions[j] == old.functions[j]);
            } else {
                assert(m.functions[j] == embeds[j - old.functions.len()]);
                assert(embeds[j - old.functions.len()].1 is Flat);
            }
        }
    }
}

/// The entry function of a program is one of its functions.
pub proof fn lemma_main_entry_member(p: ProgramView)
    requires
        bracketed_program(p),
        main_entry(p) is Some,
    ensures
        bracketed_symbol(main_entry(p).unwrap().1),
{
    lemma_find_module_member(p.modules, p.main);
    let m = find_module(p.modules, p.main).unwrap();
    let i = choose|i: int| 0 <= i < p.modules.len() && (#[trigger] p.modules[i]).1 == m;
    assert(bracketed_module(p.modules[i].1));
    lemma_find_main_member(m.functions);
    let entry = find_main(m.functions).unwrap();
    let j = choose|j: int| 0 <= j < m.functions.len() && #[trigger] m.functions[j] == entry;
    assert(bracketed_symbol(m.functions[j].1));
}

/// The first function named `main` is one of the functions.
pub proof fn lemma_find_main_member(functions: Seq<(FunctionKeyView, SymbolView)>)
    ensures
        match find_main(functions) {
            None => true,
            Some(entry) => exists|j: int| 0 <= j < functions.len() && #[trigger] functions[j]
                == entry,
        },
    decreases functions.len(),
{
    if functions.len() > 0 {
        if functions.first().0.id == "main"@ {
            assert(functions[0] == functions.first());
        } else {
            lemma_find_main_member(functions.drop_first());
            match find_main(functions.drop_first()) {
                None => {},
                Some(entry) => {
                    let j = choose|j: int|
                        0 <= j < functions.drop_first().len() && #[trigger] functions.drop_first()[j]
                            == entry;
                    assert(functions[j + 1] == entry);
                },
            }
        }
    }
}

/// In the program that a reduction gives, the markers of the entry
/// function are balanced: every opening marker is followed by its closing
/// marker. This holds where the bodies of the functions of the program that
/// was reduced are well bracketed, as bodies without markers are, and the
/// propagation keeps bodies so.
pub proof fn lemma_program_reduction_balanced<P: Fn(TypedFunction) -> TypedFunction>(
    propagate: P,
    p: ProgramView,
    field_bits: u32,
    passes: nat,
    q: ProgramView,
)
    requires
        has_entry(p),
        keeps_brackets(propagate),
        bracketed_program(p),
        program_reduction(propagate, p, field_bits, passes, Ok(q)),
    ensures
        has_entry(q),
        balanced(main_entry(q).unwrap().1->Here_0.statements),
{
    let key = main_entry(p).unwrap().0;
    let f = main_entry(p).unwrap().1->Here_0;
    let h = choose|h: Result<FunctionView, ErrorView>| #[trigger]
        reduction(propagate, f, Seq::empty(), extended(p, field_bits), passes, h) && Ok::<
            ProgramView,
            ErrorView,
        >(q) == (match h {
            Ok(g) => Ok::<ProgramView, ErrorView>(reduced_program(p.main, key, g, field_bits)),
            Err(e) => Err::<ProgramView, ErrorView>(e),
        });
    let g = h->Ok_0;
    lemma_main_entry_member(p);
    lemma_extended_bracketed(p, field_bits);
    lemma_reduction_brackets(propagate, f, Seq::empty(), extended(p, field_bits), passes, g);
    lemma_find_main(find_module(p.modules, p.main).unwrap().functions);
    let entry = (key, SymbolView::Here(g));
    let functions = seq![entry] + embed_entries(p.main, field_bits);
    assert(q.modules.last() == (p.main, ModuleView { functions }));
    assert(functions.first() == entry);
    assert(main_entry(q) == Some(entry));
}

/// Whether a statement is no marker and holds none in the body of a loop.
pub open spec fn marker_free(s: StatementView) -> bool
    decreases s,
{
    match s {
        StatementView::PushCallLog(_, _) => false,
        StatementView::PopCallLog => false,
        StatementView::For(_, _, _, body) => forall|i: int|
            0 <= i < body.len() ==> marker_free(#[trigger] body[i]),
        _ => true,
    }
}

/// A body that holds no marker, not in a loop either, is well bracketed.
pub proof fn lemma_marker_free_bracketed(body: Seq<StatementView>)
    requires
        forall|i: int| 0 <= i < body.len() ==> marker_free(#[trigger] body[i]),
    ensures
        well_bracketed(body),
    decreases body,
{
    assert(no_markers(body)) by {
        assert forall|i: int| 0 <= i < body.len() implies !((#[trigger] body[i]) is PushCallLog)
            && !(body[i] is PopCallLog) by {
            assert(marker_free(body[i]));
        }
    }
    lemma_no_markers_neutral(body);
    assert forall|i: int| 0 <= i < body.len() implies bracketed(#[trigger] body[i]) by {
        assert(marker_free(body[i]));
        match body[i] {
            StatementView::For(_, _, _, inner) => {
                lemma_marker_free_bracketed(inner);
            },
            _ => {},
        }
    }
}

} // verus!
