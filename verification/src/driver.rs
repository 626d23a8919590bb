//! The reduction of a function: shallow single-assignment form, then passes
//! that inline and unroll, with the caller's propagation between them, until
//! a pass leaves no loop and no call.

use crate::absy::{FunctionView, ProgramView, TypedFunction, TypedProgram};
use crate::apply::{apply_function, Sub};
use crate::error::{Error, ErrorView};
use crate::laws::balance::{
    bracketed_program, keeps_brackets, lemma_reduction_brackets, well_bracketed,
};
use crate::laws::reduced::{
    call_free, lemma_reduced_body_call_free, lemma_reduction_reduced, loop_free, primitives_free,
    reduced_body,
};
use crate::laws::repeat::functional;
use crate::laws::single_assignment::{
    apart, identifiers, keeps_definitions, keeps_parameters, lemma_reduction_single_assignment,
    shallow_parameters, single_assignment,
};
use crate::model::views;
use crate::laws::loops::{lemma_pass_paired, lemma_ssa_function_paired};
use crate::reducer::{loops, reduce_statements, reducer_start, Reducer};
use crate::shallow_ssa::{ssa_function, ShallowTransformer};
use crate::substitution::{compressed_all, Substitutions, SubstitutionsView};
use crate::types::GenericsAssignment;
use crate::versions::{Versions, VersionsView};
use crate::Output;
use vstd::prelude::*;

verus! {

/// A function between two passes, with what the next pass needs.
pub struct Progress {
    /// The function as the last pass left it.
    pub function: TypedFunction,
    /// The latest version of each name.
    pub versions: Versions,
    /// The rewrites recorded so far.
    pub substitutions: Substitutions,
    /// The versions before each loop left in the body, in order.
    pub for_loop_versions: Vec<Versions>,
}

/// Mathematical model of a [`Progress`].
pub struct ProgressView {
    pub function: FunctionView,
    pub versions: VersionsView,
    pub substitutions: SubstitutionsView,
    pub pending: Seq<VersionsView>,
}

impl View for Progress {
    type V = ProgressView;

    open spec fn view(&self) -> ProgressView {
        ProgressView {
            function: self.function@,
            versions: self.versions@,
            substitutions: self.substitutions@,
            pending: views(self.for_loop_versions@),
        }
    }
}

/// How a pass ended.
pub enum Pass {
    /// No loop and no call is left: the reduced function.
    Done(TypedFunction),
    /// Something is left: the function to propagate, and what the next pass
    /// needs.
    Again(Progress),
}

/// Mathematical model of a [`Pass`].
pub enum PassView {
    Done(FunctionView),
    Again(ProgressView),
}

impl View for Pass {
    type V = PassView;

    open spec fn view(&self) -> PassView {
        match *self {
            Pass::Done(f) => PassView::Done(f@),
            Pass::Again(p) => PassView::Again(p@),
        }
    }
}

/// Whether the versions before every loop of the function are recorded:
/// there are as many as loops.
pub open spec fn paired(p: ProgressView) -> bool {
    p.pending.len() == loops(p.function.statements)
}

/// Whether `propagate` hands back a function with as many loops as the
/// function had: the versions recorded for the loops are then those of the
/// loops that the next pass finds.
pub open spec fn keeps_loops<P: Fn(TypedFunction) -> TypedFunction>(propagate: P) -> bool {
    forall|x: TypedFunction, y: TypedFunction| #[trigger]
        call_ensures(propagate, (x,), y) ==> loops(y@.statements) == loops(x@.statements)
}

/// One pass over a function.
///
/// Every statement of the body is folded once, in order. Where the pass is
/// complete, the rewrites are compressed and applied, and the function is
/// reduced. Otherwise the rewrites are applied as they are, and the function
/// goes on to propagation and the next pass.
pub open spec fn reduce_pass(program: ProgramView, p: ProgressView) -> Result<PassView, ErrorView> {
    match reduce_statements(
        reducer_start(program, p.versions, p.substitutions, p.pending),
        p.function.statements,
    ) {
        Err(x) => Err(x),
        Ok((st, statements)) => {
            let g = FunctionView { statements, ..p.function };
            if st.complete {
                Ok(PassView::Done(apply_function(compressed_all(st.substitutions), g)))
            } else {
                Ok(
                    PassView::Again(
                        ProgressView {
                            function: apply_function(st.substitutions, g),
                            versions: st.versions,
                            substitutions: st.substitutions,
                            pending: st.after,
                        },
                    ),
                )
            }
        },
    }
}

/// Whether `r` is a result of running up to `budget` passes from `p`, with
/// the results of `propagate` between them.
///
/// With no pass left the run fails as exhausted. A pass that fails ends the
/// run with its error, one that is complete ends it with the reduced
/// function. After any other pass the function is handed to `propagate`, and
/// the run goes on with what came back.
#[verifier::opaque]
pub open spec fn run<P: Fn(TypedFunction) -> TypedFunction>(
    propagate: P,
    program: ProgramView,
    p: ProgressView,
    budget: nat,
    r: Result<FunctionView, ErrorView>,
) -> bool
    decreases budget,
{
    if budget == 0 {
        r == Err::<FunctionView, ErrorView>(ErrorView::Exhausted)
    } else {
        match reduce_pass(program, p) {
            Err(x) => r == Err::<FunctionView, ErrorView>(x),
            Ok(PassView::Done(f)) => r == Ok::<FunctionView, ErrorView>(f),
            Ok(PassView::Again(next)) => exists|x: TypedFunction, y: TypedFunction|
                x@ == next.function && #[trigger] call_ensures(propagate, (x,), y) && run(
                    propagate,
                    program,
                    ProgressView { function: y@, ..next },
                    (budget - 1) as nat,
                    r,
                ),
        }
    }
}

/// Whether `r` is a result of reducing a function with up to `passes`
/// passes.
///
/// The function is put in shallow single-assignment form, from no versions
/// at all. Where that leaves no loop and no call, it is the result.
/// Otherwise the passes run from there.
pub open spec fn reduction<P: Fn(TypedFunction) -> TypedFunction>(
    propagate: P,
    f: FunctionView,
    generics: Seq<(Seq<char>, u32)>,
    program: ProgramView,
    passes: nat,
    r: Result<FunctionView, ErrorView>,
) -> bool {
    match ssa_function(f, generics, Map::empty()) {
        None => r == Err::<FunctionView, ErrorView>(ErrorView::Exhausted),
        Some((t, g)) => if !t.blocked {
            r == Ok::<FunctionView, ErrorView>(g)
        } else {
            run(
                propagate,
                program,
                ProgressView {
                    function: g,
                    versions: t.versions,
                    substitutions: Map::empty(),
                    pending: t.backups,
                },
                passes,
                r,
            )
        },
    }
}

/// A run whose first pass fails has the error of that pass as result.
pub proof fn lemma_run_fails<P: Fn(TypedFunction) -> TypedFunction>(
    propagate: P,
    program: ProgramView,
    p: ProgressView,
    budget: nat,
)
    requires
        budget > 0,
        reduce_pass(program, p) is Err,
    ensures
        run(propagate, program, p, budget, Err(reduce_pass(program, p)->Err_0)),
{
    reveal(run);
}

/// A run whose first pass is complete has the function of that pass as
/// result.
pub proof fn lemma_run_done<P: Fn(TypedFunction) -> TypedFunction>(
    propagate: P,
    program: ProgramView,
    p: ProgressView,
    budget: nat,
)
    requires
        budget > 0,
        reduce_pass(program, p) is Ok,
        reduce_pass(program, p)->Ok_0 is Done,
    ensures
        run(propagate, program, p, budget, Ok(reduce_pass(program, p)->Ok_0->Done_0)),
{
    reveal(run);
}

/// A run with no pass left is exhausted.
pub proof fn lemma_run_exhausted<P: Fn(TypedFunction) -> TypedFunction>(
    propagate: P,
    program: ProgramView,
    p: ProgressView,
)
    ensures
        run(propagate, program, p, 0, Err(ErrorView::Exhausted)),
{
    reveal(run);
}

/// A result of the run that follows a pass and a propagation is a result of
/// the run that starts with that pass.
pub proof fn lemma_run_again<P: Fn(TypedFunction) -> TypedFunction>(
    propagate: P,
    program: ProgramView,
    p: ProgressView,
    budget: nat,
    x: TypedFunction,
    y: TypedFunction,
    r: Result<FunctionView, ErrorView>,
)
    requires
        budget > 0,
        reduce_pass(program, p) is Ok,
        reduce_pass(program, p)->Ok_0 is Again,
        x@ == reduce_pass(program, p)->Ok_0->Again_0.function,
        call_ensures(propagate, (x,), y),
        run(
            propagate,
            program,
            ProgressView { function: y@, ..reduce_pass(program, p)->Ok_0->Again_0 },
            (budget - 1) as nat,
            r,
        ),
    ensures
        run(propagate, program, p, budget, r),
{
    reveal(run);
}

/// The model of a result.
pub open spec fn result_view(r: Result<TypedFunction, Error>) -> Result<FunctionView, ErrorView> {
    match r {
        Ok(f) => Ok(f@),
        Err(e) => Err(e@),
    }
}

/// Runs one pass over a function that has the versions before every one of
/// its loops recorded. The pass uses all of them up, and the function that
/// it leaves for another pass has the versions before its loops recorded.
pub fn pass(program: &TypedProgram, progress: Progress) -> (r: Result<Pass, Error>)
    requires
        paired(progress@),
    ensures
        match reduce_pass(program@, progress@) {
            Err(x) => r is Err && r->Err_0@ == x,
            Ok(p) => r is Ok && r->Ok_0@ == p,
        },
        r matches Ok(Pass::Again(next)) ==> paired(next@),
{
    proof {
        lemma_pass_paired(program@, progress@);
    }
    let Progress { function, versions, substitutions, for_loop_versions } = progress;
    let mut reducer = Reducer::new(program, versions, substitutions, for_loop_versions);
    let statements = reducer.fold_statements(&function.statements)?;
    assert(reducer.for_loop_versions@.len() == 0) by {
        assert(reducer@.pending.len() == 0);
    }
    let g = TypedFunction {
        generics: function.generics,
        arguments: function.arguments,
        statements,
        signature: function.signature,
    };
    if reducer.complete {
        let substitutions = reducer.substitutions.canonicalize();
        Ok(Pass::Done(Sub::new(&substitutions).fold_function(&g)))
    } else {
        let h = Sub::new(&reducer.substitutions).fold_function(&g);
        Ok(
            Pass::Again(
                Progress {
                    function: h,
                    versions: reducer.versions,
                    substitutions: reducer.substitutions,
                    for_loop_versions: reducer.for_loop_versions_after,
                },
            ),
        )
    }
}

/// Reduces a function.
///
/// The function is put in shallow single-assignment form. Where that leaves
/// a loop or a call, passes follow, each of which inlines calls and unrolls
/// loops; `propagate` is called on the function between two passes, and what
/// it hands back is the input of the next pass; it has to keep the number
/// of loops, as the versions recorded for them go by it. `passes` bounds the
/// number of passes.
///
/// Of a function that comes back:
///
/// - It holds no loop, no call inside an expression, and no call statement
///   but to a primitive. None of these is a call of a function of the
///   program, where the program defines none under the key of a primitive.
/// - Where the propagation keeps the definitions of the function, no
///   identifier is defined twice in it, and none that is defined is a
///   parameter. Where it keeps the parameters too, these are as the shallow
///   form has them: at version 0 where their names differ.
/// - Where the propagation keeps the markers of inlined calls balanced, and
///   they are balanced in the function and in the functions of the program,
///   they are balanced in it.
pub fn reduce_function<P: Fn(TypedFunction) -> TypedFunction>(
    f: &TypedFunction,
    generics: &GenericsAssignment,
    program: &TypedProgram,
    propagate: &P,
    passes: usize,
) -> (r: Result<TypedFunction, Error>)
    requires
        forall|x: TypedFunction| call_requires(*propagate, (x,)),
        keeps_loops(*propagate),
    ensures
        reduction(*propagate, f@, generics@, program@, passes as nat, result_view(r)),
        r is Ok ==> reduced_body(r->Ok_0@.statements, program@.main),
        r is Ok && primitives_free(program@) ==> loop_free(r->Ok_0@.statements) && call_free(
            r->Ok_0@.statements,
            program@,
        ),
        r is Ok && keeps_definitions(*propagate) ==> single_assignment(r->Ok_0@.statements)
            && apart(r->Ok_0@.statements, shallow_parameters(f@, generics@).to_set()),
        r is Ok && keeps_definitions(*propagate) && keeps_parameters(*propagate) ==> identifiers(
            r->Ok_0@.arguments,
        ) == shallow_parameters(f@, generics@),
        r is Ok && keeps_brackets(*propagate) && bracketed_program(program@) && well_bracketed(
            f@.statements,
        ) ==> well_bracketed(r->Ok_0@.statements),
{
    let r = run_passes(f, generics, program, propagate, passes);
    proof {
        if r is Ok {
            let h = r->Ok_0@;
            lemma_reduction_reduced(*propagate, f@, generics@, program@, passes as nat, h);
            if primitives_free(program@) {
                lemma_reduced_body_call_free(h.statements, program@);
            }
            if keeps_definitions(*propagate) {
                lemma_reduction_single_assignment(
                    *propagate,
                    f@,
                    generics@,
                    program@,
                    passes as nat,
                    h,
                );
            }
            if keeps_brackets(*propagate) && bracketed_program(program@) && well_bracketed(
                f@.statements,
            ) {
                lemma_reduction_brackets(*propagate, f@, generics@, program@, passes as nat, h);
            }
        }
    }
    r
}

fn run_passes<P: Fn(TypedFunction) -> TypedFunction>(
    f: &TypedFunction,
    generics: &GenericsAssignment,
    program: &TypedProgram,
    propagate: &P,
    passes: usize,
) -> (r: Result<TypedFunction, Error>)
    requires
        forall|x: TypedFunction| call_requires(*propagate, (x,)),
        keeps_loops(*propagate),
    ensures
        reduction(*propagate, f@, generics@, program@, passes as nat, result_view(r)),
{
    let mut versions = Versions::new();
    let (g, for_loop_versions) = match ShallowTransformer::transform(f, generics, &mut versions) {
        None => {
            return Err(Error::Exhausted);
        },
        Some(Output::Complete(g)) => {
            return Ok(g);
        },
        Some(Output::Incomplete(g, for_loop_versions)) => (g, for_loop_versions),
    };
    let mut progress = Progress {
        function: g,
        versions,
        substitutions: Substitutions::new(),
        for_loop_versions,
    };
    proof {
        lemma_ssa_function_paired(f@, generics@, Map::empty());
    }
    let mut budget = passes;
    while budget > 0
        invariant
            forall|x: TypedFunction| call_requires(*propagate, (x,)),
            keeps_loops(*propagate),
            paired(progress@),
            forall|r: Result<FunctionView, ErrorView>| #[trigger]
                run(*propagate, program@, progress@, budget as nat, r) ==> reduction(
                    *propagate,
                    f@,
                    generics@,
                    program@,
                    passes as nat,
                    r,
                ),
        decreases budget,
    {
        let ghost current = progress@;
        match pass(program, progress) {
            Err(x) => {
                proof {
                    lemma_run_fails(*propagate, program@, current, budget as nat);
                }
                return Err(x);
            },
            Ok(Pass::Done(h)) => {
                proof {
                    lemma_run_done(*propagate, program@, current, budget as nat);
                }
                return Ok(h);
            },
            Ok(Pass::Again(next)) => {
                let Progress { function, versions, substitutions, for_loop_versions } = next;
                let ghost x = function;
                let y = propagate(function);
                progress = Progress { function: y, versions, substitutions, for_loop_versions };
                budget -= 1;
                proof {
                    assert forall|r: Result<FunctionView, ErrorView>| #[trigger]
                        run(*propagate, program@, progress@, budget as nat, r) implies reduction(
                        *propagate,
                        f@,
                        generics@,
                        program@,
                        passes as nat,
                        r,
                    ) by {
                        lemma_run_again(*propagate, program@, current, (budget + 1) as nat, x, y, r);
                    }
                }
            },
        }
    }
    proof {
        lemma_run_exhausted(*propagate, program@, progress@);
    }
    Err(Error::Exhausted)
}

/// The propagation that changes nothing.
pub fn no_propagation(f: TypedFunction) -> (r: TypedFunction)
    ensures
        r == f,
{
    f
}

/// The propagation that changes nothing keeps the loops, the definitions
/// and the markers of a function, and what it hands back depends on the
/// function alone.
pub proof fn lemma_no_propagation()
    ensures
        keeps_loops(no_propagation),
        keeps_definitions(no_propagation),
        keeps_parameters(no_propagation),
        keeps_brackets(no_propagation),
        functional(no_propagation),
        forall|x: TypedFunction| call_requires(no_propagation, (x,)),
{
}

} // verus!
