//! The reduction of a program to its entry function.

use crate::absy::{
    FunctionView, ModuleView, ProgramView, SymbolView, TypedFunction, TypedFunctionSymbol,
    TypedModule, TypedProgram,
};
use crate::driver::{keeps_loops, reduce_function, reduction, result_view};
use crate::embed::{embed_entries, embeds_in_module};
use crate::error::{Error, ErrorView};
use crate::laws::balance::{
    balanced, bracketed_program, keeps_brackets, lemma_program_reduction_balanced,
};
use crate::laws::reduced::{all_plain, lemma_program_reduction_reduced, reduced_entry};
use crate::laws::repeat::lemma_program_reduction_idempotent;
use crate::laws::single_assignment::{
    keeps_definitions, lemma_program_reduction_single_assignment, single_assignment,
};
use crate::model::{views, Modelled};
use crate::resolve::find_module;
use crate::types::{FunctionKey, FunctionKeyView, GenericsAssignment};
use vstd::prelude::*;
use vstd::string::StringExecFns;

verus! {

/// The first of the functions whose name is `main`.
pub open spec fn find_main(functions: Seq<(FunctionKeyView, SymbolView)>) -> Option<
    (FunctionKeyView, SymbolView),
>
    decreases functions.len(),
{
    if functions.len() == 0 {
        None
    } else if functions.first().0.id == "main"@ {
        Some(functions.first())
    } else {
        find_main(functions.drop_first())
    }
}

/// The entry function of a program: the function named `main` of the entry
/// module, with its key.
pub open spec fn main_entry(p: ProgramView) -> Option<(FunctionKeyView, SymbolView)> {
    match find_module(p.modules, p.main) {
        None => None,
        Some(m) => find_main(m.functions),
    }
}

/// Whether the program has an entry function that is defined in it.
pub open spec fn has_entry(p: ProgramView) -> bool {
    main_entry(p) is Some && main_entry(p).unwrap().1 is Here
}

/// The program with the primitives added to the functions of its entry
/// module.
pub open spec fn extended(p: ProgramView, field_bits: u32) -> ProgramView {
    ProgramView {
        main: p.main,
        modules: Seq::new(
            p.modules.len(),
            |i: int|
                if p.modules[i].0 == p.main {
                    (
                        p.modules[i].0,
                        ModuleView {
                            functions: p.modules[i].1.functions + embed_entries(p.main, field_bits),
                        },
                    )
                } else {
                    p.modules[i]
                },
        ),
    }
}

/// The program that is left of a reduction: the entry module alone, with
/// the reduced entry function and the primitives.
pub open spec fn reduced_program(
    main: Seq<char>,
    key: FunctionKeyView,
    f: FunctionView,
    field_bits: u32,
) -> ProgramView {
    ProgramView {
        main,
        modules: seq![
            (
                main,
                ModuleView {
                    functions: seq![(key, SymbolView::Here(f))] + embed_entries(main, field_bits),
                },
            ),
        ],
    }
}

/// Whether `r` is a result of reducing a program over a field of
/// `field_bits` bits with up to `passes` passes.
///
/// An entry function with generic parameters is rejected. Otherwise the
/// entry function is reduced in the program with the primitives added, and
/// the result is the program that holds the reduced function, or the error
/// of that reduction.
pub open spec fn program_reduction<P: Fn(TypedFunction) -> TypedFunction>(
    propagate: P,
    p: ProgramView,
    field_bits: u32,
    passes: nat,
    r: Result<ProgramView, ErrorView>,
) -> bool {
    let key = main_entry(p).unwrap().0;
    let f = main_entry(p).unwrap().1->Here_0;
    if f.generics.len() != 0 {
        r == Err::<ProgramView, ErrorView>(ErrorView::GenericsInMain)
    } else {
        exists|h: Result<FunctionView, ErrorView>| #[trigger]
            reduction(propagate, f, Seq::empty(), extended(p, field_bits), passes, h) && r == (
            match h {
                Ok(g) => Ok::<ProgramView, ErrorView>(reduced_program(p.main, key, g, field_bits)),
                Err(e) => Err::<ProgramView, ErrorView>(e),
            })
    }
}

/// The model of a result.
pub open spec fn program_result_view(r: Result<TypedProgram, Error>) -> Result<
    ProgramView,
    ErrorView,
> {
    match r {
        Ok(p) => Ok(p@),
        Err(e) => Err(e@),
    }
}

impl TypedModule {
    /// The position of the first function whose name is `main`, if there is
    /// one.
    pub fn find_main(&self) -> (r: Option<usize>)
        ensures
            match find_main(self@.functions) {
                None => r is None,
                Some(entry) => r is Some && r->0 < self.functions.len()
                    && self.functions@[r->0 as int]@ == entry,
            },
    {
        let ghost all = self@.functions;
        let name = String::from_str("main");
        let mut i: usize = 0;
        assert(all.skip(0) =~= all);
        while i < self.functions.len()
            invariant
                i <= self.functions.len(),
                all == self@.functions,
                name@ == "main"@,
                find_main(all) == find_main(all.skip(i as int)),
            decreases self.functions.len() - i,
        {
            proof {
                assert(all.skip(i as int).drop_first() =~= all.skip(i + 1));
                assert(all.skip(i as int).first() == self.functions@[i as int]@);
            }
            if self.functions[i].0.id == name {
                return Some(i);
            }
            i += 1;
        }
        None
    }
}

fn extend(p: TypedProgram, field_bits: u32) -> (r: TypedProgram)
    ensures
        r@ == extended(p@, field_bits),
{
    let ghost before = p@;
    let ghost target = extended(p@, field_bits).modules;
    let TypedProgram { main, modules } = p;
    let mut rest = modules;
    let mut reversed: Vec<(String, TypedModule)> = Vec::new();
    while rest.len() > 0
        invariant
            main@ == before.main,
            target == extended(before, field_bits).modules,
            rest@.len() + reversed@.len() == before.modules.len(),
            forall|j: int| 0 <= j < rest@.len() ==> (#[trigger] rest@[j])@ == before.modules[j],
            forall|j: int|
                0 <= j < reversed@.len() ==> (#[trigger] reversed@[j])@ == target[
                    before.modules.len() - 1 - j],
        decreases rest@.len(),
    {
        let (name, module) = rest.pop().unwrap();
        let module = if name == main {
            let mut functions = module.functions;
            let mut embeds = embeds_in_module(&main, field_bits);
            let ghost a = views(functions@);
            let ghost b = views(embeds@);
            functions.append(&mut embeds);
            assert(views(functions@) =~= a + b);
            TypedModule { functions }
        } else {
            module
        };
        reversed.push((name, module));
    }
    let mut out: Vec<(String, TypedModule)> = Vec::new();
    while reversed.len() > 0
        invariant
            target.len() == before.modules.len(),
            out@.len() + reversed@.len() == before.modules.len(),
            forall|j: int|
                0 <= j < reversed@.len() ==> (#[trigger] reversed@[j])@ == target[
                    before.modules.len() - 1 - j],
            forall|j: int| 0 <= j < out@.len() ==> (#[trigger] out@[j])@ == target[j],
        decreases reversed@.len(),
    {
        let entry = reversed.pop().unwrap();
        out.push(entry);
    }
    let r = TypedProgram { main, modules: out };
    assert(r@.modules =~= target);
    r
}

/// Reduces a program to its entry function.
///
/// What comes back holds one module, the entry module, with the reduced
/// function `main` and the primitives. The reduced function holds no loop
/// and no call of a function that the program defines. Where the
/// propagation keeps the definitions of the function, no identifier is
/// defined twice in it. Where the propagation keeps the markers of inlined
/// calls balanced, and they are balanced in the functions of the program,
/// they are balanced in it. Where the entry function holds no loop and no
/// call to begin with, reducing what comes back once more gives the same
/// program.
///
/// `field_bits` is the number of bits that a field element takes.
/// `propagate` is called on the entry function between two passes; it has
/// to keep the number of loops. `passes` bounds the number of passes.
pub fn reduce_program<P: Fn(TypedFunction) -> TypedFunction>(
    p: TypedProgram,
    field_bits: u32,
    propagate: &P,
    passes: usize,
) -> (r: Result<TypedProgram, Error>)
    requires
        has_entry(p@),
        forall|x: TypedFunction| call_requires(*propagate, (x,)),
        keeps_loops(*propagate),
    ensures
        program_reduction(*propagate, p@, field_bits, passes as nat, program_result_view(r)),
        r is Ok ==> reduced_entry(r->Ok_0@),
        r is Ok && keeps_definitions(*propagate) ==> single_assignment(
            main_entry(r->Ok_0@).unwrap().1->Here_0.statements,
        ),
        r is Ok && keeps_brackets(*propagate) && bracketed_program(p@) ==> balanced(
            main_entry(r->Ok_0@).unwrap().1->Here_0.statements,
        ),
        r is Ok && all_plain(main_entry(p@).unwrap().1->Here_0.statements) ==> program_reduction(
            *propagate,
            r->Ok_0@,
            field_bits,
            passes as nat,
            Ok(r->Ok_0@),
        ),
{
    let r = reduce_entry(p, field_bits, propagate, passes);
    proof {
        if r is Ok {
            let q = r->Ok_0@;
            if all_plain(main_entry(p@).unwrap().1->Here_0.statements) {
                lemma_program_reduction_idempotent(*propagate, p@, field_bits, passes as nat, q);
            }
            lemma_program_reduction_reduced(*propagate, p@, field_bits, passes as nat, q);
            if keeps_definitions(*propagate) {
                lemma_program_reduction_single_assignment(
                    *propagate,
                    p@,
                    field_bits,
                    passes as nat,
                    q,
                );
            }
            if keeps_brackets(*propagate) && bracketed_program(p@) {
                lemma_program_reduction_balanced(*propagate, p@, field_bits, passes as nat, q);
            }
        }
    }
    r
}

fn reduce_entry<P: Fn(TypedFunction) -> TypedFunction>(
    p: TypedProgram,
    field_bits: u32,
    propagate: &P,
    passes: usize,
) -> (r: Result<TypedProgram, Error>)
    requires
        has_entry(p@),
        forall|x: TypedFunction| call_requires(*propagate, (x,)),
        keeps_loops(*propagate),
    ensures
        program_reduction(*propagate, p@, field_bits, passes as nat, program_result_view(r)),
{
    let (main_key, main_function, main) = {
        let module = p.module(&p.main).unwrap();
        let i = module.find_main().unwrap();
        match &module.functions[i].1 {
            TypedFunctionSymbol::Here(f) => (
                module.functions[i].0.duplicate(),
                f.duplicate(),
                p.main.clone(),
            ),
            TypedFunctionSymbol::Flat(_) => vstd::pervasive::unreached(),
        }
    };
    if main_function.generics.len() != 0 {
        return Err(Error::GenericsInMain);
    }
    let ghost before = p@;
    let program = extend(p, field_bits);
    let generics = GenericsAssignment(Vec::new());
    assert(generics@ =~= Seq::empty());
    let reduced = reduce_function(&main_function, &generics, &program, propagate, passes);
    let ghost h = result_view(reduced);
    assert(reduction(
        *propagate,
        main_function@,
        Seq::empty(),
        extended(before, field_bits),
        passes as nat,
        h,
    ));
    match reduced {
        Err(e) => Err(e),
        Ok(f) => {
            let mut functions: Vec<(FunctionKey, TypedFunctionSymbol)> = Vec::new();
            let entry = (main_key, TypedFunctionSymbol::Here(f));
            functions.push(entry);
            let mut embeds = embeds_in_module(&main, field_bits);
            let ghost b = views(embeds@);
            functions.append(&mut embeds);
            assert(views(functions@) =~= seq![entry@] + b);
            let mut modules: Vec<(String, TypedModule)> = Vec::new();
            let module = (main.clone(), TypedModule { functions });
            modules.push(module);
            assert(views(modules@) =~= seq![module@]);
            Ok(TypedProgram { main, modules })
        },
    }
}

} // verus!
