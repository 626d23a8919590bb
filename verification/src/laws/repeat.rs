//! Reducing again: the same input gives the same result, and a function
//! that needs no pass is not changed by a second reduction.

use crate::absy::{
    ExpressionInnerView, ExpressionView, FunctionView, ModuleView, ProgramView, StatementView,
    SymbolView, TypedFunction, VariableView,
};
use crate::driver::{reduce_pass, reduction, run, PassView, ProgressView};
use crate::embed::embed_entries;
use crate::error::ErrorView;
use crate::laws::reduced::{
    all_plain, lemma_find_main, lemma_rename_all_keep_calls, lemma_rename_keeps_calls, plain,
};
use crate::program::{extended, has_entry, main_entry, program_reduction, reduced_program};
use crate::rename::{
    lemma_rename_expression, lemma_rename_struct, rename_expression, rename_expressions,
    rename_members, rename_size, rename_type, rename_types, Renaming,
};
use crate::resolve::find_module;
use crate::shallow_ssa::{
    define, define_all, generic_definitions, has_call, lemma_define_all_keeps, shallow_start,
    ssa_function, ssa_statement, ssa_statements, ShallowView,
};
use crate::types::{SizeView, TypeView};
use crate::versions::{next_version, VersionsView};
use vstd::prelude::*;

verus! {

/// Whether what `propagate` hands back depends on the function alone.
pub open spec fn functional<P: Fn(TypedFunction) -> TypedFunction>(propagate: P) -> bool {
    forall|x1: TypedFunction, y1: TypedFunction, x2: TypedFunction, y2: TypedFunction|
        x1@ == x2@ && #[trigger] call_ensures(propagate, (x1,), y1) && #[trigger] call_ensures(
            propagate,
            (x2,),
            y2,
        ) ==> y1@ == y2@
}

/// With a propagation that depends on the function alone, a run has one
/// result.
pub proof fn lemma_run_deterministic<P: Fn(TypedFunction) -> TypedFunction>(
    propagate: P,
    program: ProgramView,
    p: ProgressView,
    budget: nat,
    r1: Result<FunctionView, ErrorView>,
    r2: Result<FunctionView, ErrorView>,
)
    requires
        functional(propagate),
        run(propagate, program, p, budget, r1),
        run(propagate, program, p, budget, r2),
    ensures
        r1 == r2,
    decreases budget,
{
    reveal(run);
    if budget > 0 {
        match reduce_pass(program, p) {
            Ok(PassView::Again(next)) => {
                let (x1, y1) = choose|x: TypedFunction, y: TypedFunction|
                    x@ == next.function && #[trigger] call_ensures(propagate, (x,), y) && run(
                        propagate,
                        program,
                        ProgressView { function: y@, ..next },
                        (budget - 1) as nat,
                        r1,
                    );
                let (x2, y2) = choose|x: TypedFunction, y: TypedFunction|
                    x@ == next.function && #[trigger] call_ensures(propagate, (x,), y) && run(
                        propagate,
                        program,
                        ProgressView { function: y@, ..next },
                        (budget - 1) as nat,
                        r2,
                    );
                assert(y1@ == y2@);
                lemma_run_deterministic(
                    propagate,
                    program,
                    ProgressView { function: y1@, ..next },
                    (budget - 1) as nat,
                    r1,
                    r2,
                );
            },
            _ => {},
        }
    }
}

/// With a propagation that depends on the function alone, the reduction of
/// a function has one result.
pub proof fn lemma_reduction_deterministic<P: Fn(TypedFunction) -> TypedFunction>(
    propagate: P,
    f: FunctionView,
    generics: Seq<(Seq<char>, u32)>,
    program: ProgramView,
    passes: nat,
    r1: Result<FunctionView, ErrorView>,
    r2: Result<FunctionView, ErrorView>,
)
    requires
        functional(propagate),
        reduction(propagate, f, generics, program, passes, r1),
        reduction(propagate, f, generics, program, passes, r2),
    ensures
        r1 == r2,
{
    match ssa_function(f, generics, Map::empty()) {
        None => {},
        Some((t, g)) => {
            if t.blocked {
                lemma_run_deterministic(
                    propagate,
                    program,
                    ProgressView {
                        function: g,
                        versions: t.versions,
                        substitutions: Map::empty(),
                        pending: t.backups,
                    },
                    passes,
                    r1,
                    r2,
                );
            }
        },
    }
}

/// With a propagation that depends on the function alone, the reduction of
/// a program has one result: two reductions of the same program give the
/// same program, or the same error.
pub proof fn lemma_program_reduction_deterministic<P: Fn(TypedFunction) -> TypedFunction>(
    propagate: P,
    p: ProgramView,
    field_bits: u32,
    passes: nat,
    r1: Result<ProgramView, ErrorView>,
    r2: Result<ProgramView, ErrorView>,
)
    requires
        functional(propagate),
        program_reduction(propagate, p, field_bits, passes, r1),
        program_reduction(propagate, p, field_bits, passes, r2),
    ensures
        r1 == r2,
{
    let key = main_entry(p).unwrap().0;
    let f = main_entry(p).unwrap().1->Here_0;
    if f.generics.len() == 0 {
        let h1 = choose|h: Result<FunctionView, ErrorView>| #[trigger]
            reduction(propagate, f, Seq::empty(), extended(p, field_bits), passes, h) && r1 == (
            match h {
                Ok(g) => Ok::<ProgramView, ErrorView>(reduced_program(p.main, key, g, field_bits)),
                Err(e) => Err::<ProgramView, ErrorView>(e),
            });
        let h2 = choose|h: Result<FunctionView, ErrorView>| #[trigger]
            reduction(propagate, f, Seq::empty(), extended(p, field_bits), passes, h) && r2 == (
            match h {
                Ok(g) => Ok::<ProgramView, ErrorView>(reduced_program(p.main, key, g, field_bits)),
                Err(e) => Err::<ProgramView, ErrorView>(e),
            });
        lemma_reduction_deterministic(
            propagate,
            f,
            Seq::empty(),
            extended(p, field_bits),
            passes,
            h1,
            h2,
        );
    }
}

/// The latest version of a name is read whatever version stood there.
pub proof fn lemma_latest_size(v: VersionsView, r: Renaming, s: SizeView)
    ensures
        rename_size(Renaming::Latest(v), rename_size(r, s)) == rename_size(Renaming::Latest(v), s),
    decreases s,
{
    match s {
        SizeView::Operation(_, a, b) => {
            lemma_latest_size(v, r, *a);
            lemma_latest_size(v, r, *b);
        },
        _ => {},
    }
}

/// The latest versions are read in a type whatever versions stood there.
pub proof fn lemma_latest_type(v: VersionsView, r: Renaming, t: TypeView)
    ensures
        rename_type(Renaming::Latest(v), rename_type(r, t)) == rename_type(Renaming::Latest(v), t),
    decreases t,
{
    match t {
        TypeView::Array(inner, size) => {
            lemma_latest_type(v, r, *inner);
            lemma_latest_size(v, r, size);
        },
        TypeView::Struct(_, members) => {
            let l = Renaming::Latest(v);
            lemma_rename_struct(r, t);
            lemma_rename_struct(l, t);
            lemma_rename_struct(l, rename_type(r, t));
            let once = rename_members(r, members);
            assert forall|i: int| 0 <= i < members.len() implies rename_type(l, once[i].1)
                == rename_type(l, members[i].1) by {
                lemma_latest_type(v, r, members[i].1);
            }
            assert(rename_members(l, once) =~= rename_members(
                l,
                members,
            ));
        },
        _ => {},
    }
}

/// The latest versions are read in an expression whatever versions stood
/// there.
pub proof fn lemma_latest_expression(v: VersionsView, r: Renaming, e: ExpressionView)
    ensures
        rename_expression(Renaming::Latest(v), rename_expression(r, e)) == rename_expression(
            Renaming::Latest(v),
            e,
        ),
    decreases e,
{
    let l = Renaming::Latest(v);
    lemma_rename_expression(r, e);
    lemma_rename_expression(l, e);
    lemma_rename_expression(l, rename_expression(r, e));
    lemma_latest_type(v, r, e.ty);
    match e.inner {
        ExpressionInnerView::Values(es) => {
            lemma_latest_expressions(v, r, es);
        },
        ExpressionInnerView::Operation(_, es) => {
            lemma_latest_expressions(v, r, es);
        },
        ExpressionInnerView::FunctionCall(_, es) => {
            lemma_latest_expressions(v, r, es);
        },
        _ => {},
    }
}

/// The latest versions are read in expressions whatever versions stood
/// there.
pub proof fn lemma_latest_expressions(v: VersionsView, r: Renaming, es: Seq<ExpressionView>)
    ensures
        rename_expressions(Renaming::Latest(v), rename_expressions(r, es)) == rename_expressions(
            Renaming::Latest(v),
            es,
        ),
    decreases es,
{
    let l = Renaming::Latest(v);
    assert forall|i: int| 0 <= i < es.len() implies rename_expression(
        l,
        rename_expressions(r, es)[i],
    ) == rename_expression(l, es[i]) by {
        lemma_latest_expression(v, r, es[i]);
    }
    assert(rename_expressions(l, rename_expressions(r, es)) =~= rename_expressions(l, es));
}

/// The latest versions are read in types whatever versions stood there.
pub proof fn lemma_latest_types(v: VersionsView, r: Renaming, ts: Seq<TypeView>)
    ensures
        rename_types(Renaming::Latest(v), rename_types(r, ts)) == rename_types(
            Renaming::Latest(v),
            ts,
        ),
{
    let l = Renaming::Latest(v);
    assert forall|i: int| 0 <= i < ts.len() implies rename_type(l, rename_types(r, ts)[i])
        == rename_type(l, ts[i]) by {
        lemma_latest_type(v, r, ts[i]);
    }
    assert(rename_types(l, rename_types(r, ts)) =~= rename_types(l, ts));
}

/// A variable that was given its version gets the same one again.
pub proof fn lemma_define_again(t: ShallowView, v: VariableView)
    ensures
        match define(t, v) {
            None => true,
            Some((t1, v1)) => define(t, v1) == Some((t1, v1)),
        },
{
    match next_version(t.versions, v.id.id) {
        None => {},
        Some(n) => {
            let versions = t.versions.insert(v.id.id, n);
            lemma_latest_type(versions, Renaming::Latest(versions), v.ty);
        },
    }
}

/// Variables that were given their versions get the same ones again.
pub proof fn lemma_define_all_again(t: ShallowView, vs: Seq<VariableView>)
    ensures
        match define_all(t, vs) {
            None => true,
            Some((t1, out)) => define_all(t, out) == Some((t1, out)),
        },
    decreases vs.len(),
{
    if vs.len() > 0 {
        lemma_define_all_again(t, vs.drop_last());
        match define_all(t, vs.drop_last()) {
            None => {},
            Some((t1, out)) => {
                lemma_define_again(t1, vs.last());
                match define(t1, vs.last()) {
                    None => {},
                    Some((t2, v)) => {
                        assert(out.push(v).drop_last() =~= out);
                    },
                }
            },
        }
    } else {
        assert(define_all(t, vs).unwrap().1 =~= vs);
    }
}

/// A statement in shallow single-assignment form is not changed by the
/// transformation that gave it.
pub proof fn lemma_ssa_statement_again(t: ShallowView, s: StatementView)
    ensures
        match ssa_statement(t, s) {
            None => true,
            Some((t1, s1)) => ssa_statement(t, s1) == Some((t1, s1)),
        },
{
    let l = Renaming::Latest(t.versions);
    match s {
        StatementView::Definition(v, e) => {
            lemma_latest_expression(t.versions, l, e);
            lemma_rename_keeps_calls(l, e);
            let t1 = ShallowView { blocked: t.blocked || has_call(e), ..t };
            lemma_define_again(t1, v);
        },
        StatementView::MultipleDefinition(vs, key, args, types) => {
            lemma_latest_expressions(t.versions, l, args);
            lemma_latest_types(t.versions, l, types);
            lemma_define_all_again(ShallowView { blocked: true, ..t }, vs);
        },
        StatementView::Return(es) => {
            lemma_latest_expressions(t.versions, l, es);
            lemma_rename_all_keep_calls(l, es);
        },
        StatementView::For(v, from, to, body) => {
            lemma_latest_expression(t.versions, l, from);
            lemma_latest_expression(t.versions, l, to);
        },
        _ => {},
    }
}

/// A body in shallow single-assignment form is not changed by the
/// transformation that gave it.
pub proof fn lemma_ssa_statements_again(t: ShallowView, body: Seq<StatementView>)
    ensures
        match ssa_statements(t, body) {
            None => true,
            Some((t1, out)) => ssa_statements(t, out) == Some((t1, out)),
        },
    decreases body.len(),
{
    if body.len() > 0 {
        lemma_ssa_statements_again(t, body.drop_last());
        match ssa_statements(t, body.drop_last()) {
            None => {},
            Some((t1, out)) => {
                lemma_ssa_statement_again(t1, body.last());
                match ssa_statement(t1, body.last()) {
                    None => {},
                    Some((t2, s)) => {
                        assert(out.push(s).drop_last() =~= out);
                    },
                }
            },
        }
    } else {
        assert(ssa_statements(t, body).unwrap().1 =~= body);
    }
}

/// A function in shallow single-assignment form is not changed by the
/// transformation that gave it, where it has no generic parameters to
/// bind.
pub proof fn lemma_ssa_function_again(f: FunctionView, versions: VersionsView)
    ensures
        match ssa_function(f, Seq::empty(), versions) {
            None => true,
            Some((t, g)) => ssa_function(g, Seq::empty(), versions) == Some((t, g)),
        },
{
    let none = Seq::<(Seq<char>, u32)>::empty();
    assert(generic_definitions(none) =~= Seq::empty());
    lemma_define_all_again(shallow_start(versions), f.arguments);
    match define_all(shallow_start(versions), f.arguments) {
        None => {},
        Some((t1, arguments)) => {
            assert(generic_definitions(none) + f.statements =~= f.statements);
            lemma_ssa_statements_again(t1, f.statements);
            match ssa_statements(t1, f.statements) {
                None => {},
                Some((t2, statements)) => {
                    assert(generic_definitions(none) + statements =~= statements);
                },
            }
        },
    }
}

/// A body without loops and calls does not block the transformer.
pub proof fn lemma_plain_body_passes(t: ShallowView, body: Seq<StatementView>)
    requires
        all_plain(body),
        !t.blocked,
    ensures
        match ssa_statements(t, body) {
            None => true,
            Some((t1, _)) => !t1.blocked,
        },
    decreases body.len(),
{
    if body.len() > 0 {
        assert(all_plain(body.drop_last())) by {
            assert forall|i: int| 0 <= i < body.drop_last().len() implies plain(
                #[trigger] body.drop_last()[i],
            ) by {
                assert(body.drop_last()[i] == body[i]);
            }
        }
        lemma_plain_body_passes(t, body.drop_last());
        assert(plain(body.last()));
        match ssa_statements(t, body.drop_last()) {
            None => {},
            Some((t1, _)) => {
                match body.last() {
                    StatementView::Definition(v, e) => {
                        match define(t1, v) {
                            None => {},
                            Some(_) => {},
                        }
                    },
                    _ => {},
                }
            },
        }
    }
}

/// Reducing a function without loops and calls a second time changes
/// nothing: the function that the first reduction gave is the result of
/// reducing it again.
pub proof fn lemma_reduction_idempotent<P: Fn(TypedFunction) -> TypedFunction>(
    propagate: P,
    f: FunctionView,
    program: ProgramView,
    passes: nat,
    g: FunctionView,
)
    requires
        all_plain(f.statements),
        reduction(propagate, f, Seq::empty(), program, passes, Ok(g)),
    ensures
        reduction(propagate, g, Seq::empty(), program, passes, Ok(g)),
{
    let none = Seq::<(Seq<char>, u32)>::empty();
    let start = shallow_start(Map::empty());
    assert(generic_definitions(none) =~= Seq::empty());
    assert(generic_definitions(none) + f.statements =~= f.statements);
    lemma_define_all_keeps(start, f.arguments);
    match define_all(start, f.arguments) {
        None => {},
        Some((t1, _)) => {
            lemma_plain_body_passes(t1, f.statements);
        },
    }
    lemma_ssa_function_again(f, Map::empty());
}

/// Reducing a program whose entry function has no loops and calls a second
/// time changes nothing: the program that the first reduction gave is the
/// result of reducing it again.
pub proof fn lemma_program_reduction_idempotent<P: Fn(TypedFunction) -> TypedFunction>(
    propagate: P,
    p: ProgramView,
    field_bits: u32,
    passes: nat,
    q: ProgramView,
)
    requires
        has_entry(p),
        all_plain(main_entry(p).unwrap().1->Here_0.statements),
        program_reduction(propagate, p, field_bits, passes, Ok(q)),
    ensures
        program_reduction(propagate, q, field_bits, passes, Ok(q)),
{
    let key = main_entry(p).unwrap().0;
    let f = main_entry(p).unwrap().1->Here_0;
    let h = choose|h: Result<FunctionView, ErrorView>| #[trigger]
        reduction(propagate, f, Seq::empty(), extended(p, field_bits), passes, h) && Ok::<
            ProgramView,
            ErrorView,
        >(q) == (match h {
            Ok(g) => Ok::<ProgramView, ErrorView>(reduced_program(p.main, key, g, field_bits)),
            Err(e) => Err::<ProgramView, ErrorView>(e),
        });
    let g = h->Ok_0;
    lemma_find_main(find_module(p.modules, p.main).unwrap().functions);
    let entry = (key, SymbolView::Here(g));
    let functions = seq![entry] + embed_entries(p.main, field_bits);
    assert(q.modules.last() == (p.main, ModuleView { functions }));
    assert(functions.first() == entry);
    assert(main_entry(q) == Some(entry));
    // the first reduction needed no pass, so it is the shallow form alone,
    // in whatever program
    let none = Seq::<(Seq<char>, u32)>::empty();
    let start = shallow_start(Map::empty());
    assert(generic_definitions(none) + f.statements =~= f.statements) by {
        assert(generic_definitions(none) =~= Seq::empty());
    }
    lemma_define_all_keeps(start, f.arguments);
    match define_all(start, f.arguments) {
        None => {},
        Some((t1, _)) => {
            lemma_plain_body_passes(t1, f.statements);
        },
    }
    lemma_ssa_function_again(f, Map::empty());
    assert(g.generics == f.generics);
    assert(reduction(propagate, g, Seq::empty(), extended(q, field_bits), passes, Ok(g)));
    assert(reduced_program(q.main, key, g, field_bits) == q);
}

} // verus!
