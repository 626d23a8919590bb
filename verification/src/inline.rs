//! Inlining a call: the statements that stand for the body of the function
//! called, specialised to the call and in shallow single-assignment form, and
//! the expressions that hold what it returns.

use crate::absy::{
    lemma_expression_view, Expression, ExpressionInner, ExpressionInnerView, ExpressionView,
    FlatEmbed, FunctionView, ProgramView, Statement, StatementView, SymbolView, TypedFunction,
    TypedFunctionSymbol, TypedProgram, Variable, VariableView,
};
use crate::identifier::{CoreIdentifier, CoreIdentifierView, Identifier, IdentifierView};
use crate::model::{duplicate_all, equal_all, views, Modelled};
use crate::resolve::resolve;
use crate::shallow_ssa::{ssa_function, ShallowTransformer};
use crate::types::{
    FunctionKey, FunctionKeyView, GenericsAssignment, Signature, SignatureView, Type, TypeView,
};
use crate::unify::{all_concrete, specialize, types_are_concrete, AssignmentView};
use crate::versions::{next_version, Versions, VersionsView};
use crate::Output;
use vstd::prelude::*;

verus! {

/// Why a call was not inlined.
#[derive(Debug, PartialEq, Eq)]
pub enum InlineError {
    /// The concrete types of the call do not match the declaration: the key
    /// of the declaration and the key of the call.
    Generic(FunctionKey, FunctionKey),
    /// The call cannot be inlined as it stands: a type of the call is not
    /// concrete yet, or the program holds no function of the right shape
    /// for it. The call is handed back.
    NonConstant(FunctionKey, Vec<Expression>, Vec<Type>),
    /// The call is to a primitive and stays: the primitive and the call.
    Flat(FlatEmbed, Vec<Expression>, Vec<Type>),
    /// The versions have run out.
    Exhausted,
}

/// Mathematical model of an [`InlineError`].
pub enum InlineErrorView {
    Generic(FunctionKeyView, FunctionKeyView),
    NonConstant(FunctionKeyView, Seq<ExpressionView>, Seq<TypeView>),
    Flat(FlatEmbed, Seq<ExpressionView>, Seq<TypeView>),
    Exhausted,
}

impl View for InlineError {
    type V = InlineErrorView;

    open spec fn view(&self) -> InlineErrorView {
        match *self {
            InlineError::Generic(d, c) => InlineErrorView::Generic(d@, c@),
            InlineError::NonConstant(k, a, t) => InlineErrorView::NonConstant(
                k@,
                views(a@),
                views(t@),
            ),
            InlineError::Flat(e, a, t) => InlineErrorView::Flat(e, views(a@), views(t@)),
            InlineError::Exhausted => InlineErrorView::Exhausted,
        }
    }
}

/// Mathematical model of an inlined call: the statements to put before the
/// call site, the expressions that hold the results, and, where loops or
/// calls are left in the statements, the versions before each such loop.
pub struct Inlined {
    pub statements: Seq<StatementView>,
    pub expressions: Seq<ExpressionView>,
    pub backups: Option<Seq<VersionsView>>,
}

/// The model of what `inline_call` returns on success.
pub open spec fn inlined_view(o: Output<(Vec<Statement>, Vec<Expression>), Vec<Versions>>)
    -> Inlined {
    match o {
        Output::Complete((statements, expressions)) => Inlined {
            statements: views(statements@),
            expressions: views(expressions@),
            backups: None,
        },
        Output::Incomplete((statements, expressions), backups) => Inlined {
            statements: views(statements@),
            expressions: views(expressions@),
            backups: Some(views(backups@)),
        },
    }
}

/// One remembered call: the concrete key, the arguments, and the
/// expressions that hold the results.
#[derive(Debug)]
struct CacheEntry {
    key: FunctionKey,
    arguments: Vec<Expression>,
    results: Vec<Expression>,
}

impl View for CacheEntry {
    type V = (FunctionKeyView, Seq<ExpressionView>, Seq<ExpressionView>);

    closed spec fn view(&self) -> (FunctionKeyView, Seq<ExpressionView>, Seq<ExpressionView>) {
        (self.key@, views(self.arguments@), views(self.results@))
    }
}

/// Mathematical model of a [`CallCache`]: for each call that is remembered,
/// its concrete key, its arguments, and the expressions that hold its
/// results.
pub type CacheView = Seq<(FunctionKeyView, Seq<ExpressionView>, Seq<ExpressionView>)>;

/// The results remembered for a call: those of the last entry with its key
/// and arguments.
pub open spec fn cache_get(c: CacheView, key: FunctionKeyView, args: Seq<ExpressionView>)
    -> Option<Seq<ExpressionView>>
    decreases c.len(),
{
    if c.len() == 0 {
        None
    } else if c.last().0 == key && c.last().1 == args {
        Some(c.last().2)
    } else {
        cache_get(c.drop_last(), key, args)
    }
}

/// Whether a cache remembers as many results for each call as the key of
/// the call has output types.
pub open spec fn cache_sized(c: CacheView) -> bool {
    forall|i: int| 0 <= i < c.len() ==> (#[trigger] c[i]).2.len() == c[i].0.signature.outputs.len()
}

/// What a cache remembers for a call are as many results as the key has
/// output types.
pub proof fn lemma_cache_get_sized(c: CacheView, key: FunctionKeyView, args: Seq<ExpressionView>)
    requires
        cache_sized(c),
    ensures
        cache_get(c, key, args) is Some ==> cache_get(c, key, args).unwrap().len()
            == key.signature.outputs.len(),
    decreases c.len(),
{
    if c.len() > 0 {
        if c.last().0 == key && c.last().1 == args {
            assert(c[c.len() - 1] == c.last());
        } else {
            assert forall|i: int| 0 <= i < c.drop_last().len() implies (
            #[trigger] c.drop_last()[i]).2.len() == c.drop_last()[i].0.signature.outputs.len() by {
                assert(c.drop_last()[i] == c[i]);
            }
            lemma_cache_get_sized(c.drop_last(), key, args);
        }
    }
}

/// The calls inlined so far, with the expressions that hold their results:
/// as many for each call as its key has output types.
#[derive(Debug)]
pub struct CallCache {
    entries: Vec<CacheEntry>,
}

impl View for CallCache {
    type V = CacheView;

    closed spec fn view(&self) -> CacheView {
        views(self.entries@)
    }
}

impl CallCache {
    #[verifier::type_invariant]
    spec fn sized(&self) -> bool {
        cache_sized(views(self.entries@))
    }

    /// An empty cache.
    pub fn new() -> (r: CallCache)
        ensures
            r@ == Seq::<(FunctionKeyView, Seq<ExpressionView>, Seq<ExpressionView>)>::empty(),
    {
        let entries: Vec<CacheEntry> = Vec::new();
        assert(views(entries@) =~= Seq::empty());
        CallCache { entries }
    }

    /// The results remembered for a call, if any.
    pub fn get(&self, key: &FunctionKey, arguments: &Vec<Expression>) -> (r: Option<
        Vec<Expression>,
    >)
        ensures
            cache_sized(self@),
            match cache_get(self@, key@, views(arguments@)) {
                None => r is None,
                Some(results) => r is Some && views(r->0@) == results,
            },
    {
        proof {
            use_type_invariant(self);
        }
        let ghost all = self@;
        let mut i: usize = self.entries.len();
        assert(all.take(i as int) =~= all);
        while i > 0
            invariant
                i <= self.entries.len(),
                all == self@,
                cache_sized(all),
                cache_get(all, key@, views(arguments@)) == cache_get(
                    all.take(i as int),
                    key@,
                    views(arguments@),
                ),
            decreases i,
        {
            proof {
                assert(all.take(i as int).drop_last() =~= all.take(i - 1));
                assert(all.take(i as int).last() == self.entries@[i - 1]@);
            }
            i -= 1;
            if self.entries[i].key.equals(key) && equal_all(&self.entries[i].arguments, arguments) {
                return Some(duplicate_all(&self.entries[i].results));
            }
        }
        None
    }

    /// Remembers the results of a call.
    pub fn insert(&mut self, key: FunctionKey, arguments: Vec<Expression>, results: Vec<Expression>)
        requires
            results@.len() == key@.signature.outputs.len(),
        ensures
            final(self)@ == old(self)@.push((key@, views(arguments@), views(results@))),
    {
        proof {
            use_type_invariant(&*self);
        }
        let ghost before = self@;
        let entry = CacheEntry { key, arguments, results };
        let mut entries: Vec<CacheEntry> = Vec::new();
        core::mem::swap(&mut self.entries, &mut entries);
        entries.push(entry);
        proof {
            assert(views(entries@) =~= before.push(entry@));
            assert forall|i: int| 0 <= i < views(entries@).len() implies (#[trigger] views(
                entries@,
            )[i]).2.len() == views(entries@)[i].0.signature.outputs.len() by {
                if i < before.len() {
                    assert(views(entries@)[i] == before[i]);
                }
            }
        }
        core::mem::swap(&mut self.entries, &mut entries);
    }
}

/// The types of the expressions of a sequence.
pub open spec fn expression_types(es: Seq<ExpressionView>) -> Seq<TypeView> {
    Seq::new(es.len(), |i: int| es[i].ty)
}

/// The statements of a body that are no `Return`, in order.
pub open spec fn non_returns(body: Seq<StatementView>) -> Seq<StatementView>
    decreases body.len(),
{
    if body.len() == 0 {
        Seq::empty()
    } else if body.last() is Return {
        non_returns(body.drop_last())
    } else {
        non_returns(body.drop_last()).push(body.last())
    }
}

/// What the `Return` statements of a body return, in order.
pub open spec fn returned_values(body: Seq<StatementView>) -> Seq<Seq<ExpressionView>>
    decreases body.len(),
{
    if body.len() == 0 {
        Seq::empty()
    } else if body.last() is Return {
        returned_values(body.drop_last()).push(body.last()->Return_0)
    } else {
        returned_values(body.drop_last())
    }
}

/// One variable for each result of a call: the slot of its position, at the
/// next version of that slot, with the type of the result. `None` where the
/// versions have run out.
pub open spec fn call_slots(v: VersionsView, types: Seq<TypeView>) -> Option<
    (VersionsView, Seq<VariableView>),
>
    decreases types.len(),
{
    if types.len() == 0 {
        Some((v, Seq::empty()))
    } else {
        match call_slots(v, types.drop_last()) {
            None => None,
            Some((v1, out)) => {
                let id = CoreIdentifierView::Call((types.len() - 1) as usize);
                match next_version(v1, id) {
                    None => None,
                    Some(n) => Some(
                        (
                            v1.insert(id, n),
                            out.push(
                                VariableView {
                                    id: IdentifierView { id, version: n },
                                    ty: types.last(),
                                },
                            ),
                        ),
                    ),
                }
            },
        }
    }
}

/// The definitions that bind the parameters of the function to the
/// arguments of the call, each parameter at the concrete type of its
/// argument.
pub open spec fn input_bindings(parameters: Seq<VariableView>, args: Seq<ExpressionView>) -> Seq<
    StatementView,
> {
    Seq::new(
        if parameters.len() <= args.len() {
            parameters.len()
        } else {
            args.len()
        },
        |i: int|
            StatementView::Definition(
                VariableView { id: parameters[i].id, ty: args[i].ty },
                args[i],
            ),
    )
}

/// The definitions that bind the result slots to what the function
/// returns.
pub open spec fn output_bindings(slots: Seq<VariableView>, returned: Seq<ExpressionView>) -> Seq<
    StatementView,
> {
    Seq::new(slots.len(), |i: int| StatementView::Definition(slots[i], returned[i]))
}

/// The expressions that read the result slots.
pub open spec fn slot_reads(slots: Seq<VariableView>) -> Seq<ExpressionView> {
    Seq::new(
        slots.len(),
        |i: int|
            ExpressionView { ty: slots[i].ty, inner: ExpressionInnerView::Identifier(slots[i].id) },
    )
}

/// What inlining a call gives, and the cache and the versions after it.
pub struct InlineOutcome {
    pub result: Result<Inlined, InlineErrorView>,
    pub cache: CacheView,
    pub versions: VersionsView,
}

/// The key of a call with the concrete types of its arguments and results.
pub open spec fn concrete_key(
    key: FunctionKeyView,
    args: Seq<ExpressionView>,
    types: Seq<TypeView>,
) -> FunctionKeyView {
    FunctionKeyView {
        module: key.module,
        id: key.id,
        signature: SignatureView { inputs: expression_types(args), outputs: types },
    }
}

/// Inlines the body of a function for a call whose generic parameters are
/// known.
///
/// The function is put in shallow single-assignment form with the
/// parameters bound as the assignment says. The statements are: the opening
/// marker, the bindings of the parameters, the body without its `Return`,
/// the bindings of the result slots, the closing marker. Where the body has
/// not exactly one `Return`, or it returns another number of values than
/// the call expects, the call is handed back.
pub open spec fn inline_function(
    f: FunctionView,
    key: FunctionKeyView,
    assignment: AssignmentView,
    args: Seq<ExpressionView>,
    types: Seq<TypeView>,
    cache: CacheView,
    versions: VersionsView,
) -> InlineOutcome {
    match ssa_function(f, assignment, versions) {
        None => InlineOutcome { result: Err(InlineErrorView::Exhausted), cache, versions },
        Some((t, g)) => {
            let returned = returned_values(g.statements);
            if returned.len() != 1 || returned[0].len() != types.len() {
                InlineOutcome {
                    result: Err(InlineErrorView::NonConstant(key, args, types)),
                    cache,
                    versions: t.versions,
                }
            } else {
                match call_slots(t.versions, types) {
                    None => InlineOutcome {
                        result: Err(InlineErrorView::Exhausted),
                        cache,
                        versions,
                    },
                    Some((v2, slots)) => {
                        let expressions = slot_reads(slots);
                        InlineOutcome {
                            result: Ok(
                                Inlined {
                                    statements: seq![StatementView::PushCallLog(key, assignment)]
                                        + input_bindings(g.arguments, args) + non_returns(
                                        g.statements,
                                    ) + output_bindings(slots, returned[0])
                                        + seq![StatementView::PopCallLog],
                                    expressions,
                                    backups: if t.blocked {
                                        Some(t.backups)
                                    } else {
                                        None
                                    },
                                },
                            ),
                            cache: cache.push((concrete_key(key, args, types), args, expressions)),
                            versions: v2,
                        }
                    },
                }
            }
        },
    }
}

/// Inlines a call.
///
/// - A key that stands for a primitive gives `Flat`.
/// - A key that stands for nothing, or a type of the call that is not
///   concrete, hands the call back with `NonConstant`.
/// - Concrete types that do not match the declaration give `Generic`.
/// - A call that was inlined before, with the same concrete key and
///   arguments, gives the remembered expressions and no statements.
/// - Otherwise the function is inlined and the call remembered.
pub open spec fn inlining(
    key: FunctionKeyView,
    args: Seq<ExpressionView>,
    types: Seq<TypeView>,
    p: ProgramView,
    cache: CacheView,
    versions: VersionsView,
) -> InlineOutcome {
    match resolve(p, key) {
        None => InlineOutcome {
            result: Err(InlineErrorView::NonConstant(key, args, types)),
            cache,
            versions,
        },
        Some(SymbolView::Flat(e)) => InlineOutcome {
            result: Err(InlineErrorView::Flat(e, args, types)),
            cache,
            versions,
        },
        Some(SymbolView::Here(f)) => {
            if !all_concrete(expression_types(args)) || !all_concrete(types) {
                InlineOutcome {
                    result: Err(InlineErrorView::NonConstant(key, args, types)),
                    cache,
                    versions,
                }
            } else {
                let concrete = concrete_key(key, args, types);
                match specialize(key.signature, concrete.signature) {
                    None => InlineOutcome {
                        result: Err(InlineErrorView::Generic(key, concrete)),
                        cache,
                        versions,
                    },
                    Some(assignment) => match cache_get(cache, concrete, args) {
                        Some(results) => InlineOutcome {
                            result: Ok(
                                Inlined {
                                    statements: Seq::empty(),
                                    expressions: results,
                                    backups: None,
                                },
                            ),
                            cache,
                            versions,
                        },
                        None => inline_function(f, key, assignment, args, types, cache, versions),
                    },
                }
            }
        },
    }
}

fn types_of(args: &Vec<Expression>) -> (r: Vec<Type>)
    ensures
        views(r@) == expression_types(views(args@)),
{
    let mut out: Vec<Type> = Vec::new();
    let mut i: usize = 0;
    while i < args.len()
        invariant
            i <= args.len(),
            out.len() == i,
            forall|j: int| 0 <= j < i ==> (#[trigger] out@[j])@ == args@[j]@.ty,
        decreases args.len() - i,
    {
        proof {
            lemma_expression_view(args@[i as int]);
        }
        out.push(args[i].ty.duplicate());
        i += 1;
    }
    assert(views(out@) =~= expression_types(views(args@)));
    out
}

fn split_returns(body: &Vec<Statement>) -> (r: (Vec<Statement>, Vec<Vec<Expression>>))
    ensures
        views(r.0@) == non_returns(views(body@)),
        r.1@.len() == returned_values(views(body@)).len(),
        forall|j: int| 0 <= j < r.1@.len() ==> views(#[trigger] r.1@[j]@) == returned_values(views(body@))[j],
{
    let ghost all = views(body@);
    let mut others: Vec<Statement> = Vec::new();
    let mut returned: Vec<Vec<Expression>> = Vec::new();
    let mut i: usize = 0;
    assert(all.take(0) =~= Seq::empty());
    assert(views(others@) =~= Seq::empty());
    while i < body.len()
        invariant
            i <= body.len(),
            all == views(body@),
            views(others@) == non_returns(all.take(i as int)),
            returned@.len() == returned_values(all.take(i as int)).len(),
            forall|j: int|
                0 <= j < returned@.len() ==> views(#[trigger] returned@[j]@) == returned_values(
                    all.take(i as int),
                )[j],
        decreases body.len() - i,
    {
        proof {
            assert(all.take(i + 1).drop_last() =~= all.take(i as int));
            assert(all.take(i + 1).last() == body@[i as int]@);
        }
        match &body[i] {
            Statement::Return(es) => {
                returned.push(duplicate_all(es));
            },
            other => {
                let ghost before = views(others@);
                let st = other.duplicate();
                others.push(st);
                assert(views(others@) =~= before.push(st@));
            },
        }
        i += 1;
    }
    assert(all.take(body.len() as int) =~= all);
    (others, returned)
}

fn issue_call_slots(versions: &mut Versions, types: &Vec<Type>) -> (r: Option<Vec<Variable>>)
    ensures
        match call_slots(old(versions)@, views(types@)) {
            None => r is None,
            Some((v, slots)) => r is Some && views(r->0@) == slots && final(versions)@ == v,
        },
{
    let ghost start = versions@;
    let ghost all = views(types@);
    let mut out: Vec<Variable> = Vec::new();
    let mut i: usize = 0;
    assert(all.take(0) =~= Seq::empty());
    assert(views(out@) =~= Seq::empty());
    while i < types.len()
        invariant
            i <= types.len(),
            all == views(types@),
            start == old(versions)@,
            call_slots(start, all.take(i as int)) == Some((versions@, views(out@))),
        decreases types.len() - i,
    {
        proof {
            assert(all.take(i + 1).drop_last() =~= all.take(i as int));
            assert(all.take(i + 1).last() == types@[i as int]@);
        }
        let id = CoreIdentifier::Call(i);
        let ghost before = views(out@);
        match versions.fresh(&id) {
            None => {
                proof {
                    assert(call_slots(start, all.take(i + 1)) is None);
                    lemma_call_slots_none(start, all, i + 1);
                }
                return None;
            },
            Some(n) => {
                let v = Variable { id: Identifier { id, version: n }, ty: types[i].duplicate() };
                out.push(v);
                assert(views(out@) =~= before.push(v@));
            },
        }
        i += 1;
    }
    assert(all.take(types.len() as int) =~= all);
    Some(out)
}

/// Where the first slots cannot be issued, neither can all of them.
pub proof fn lemma_call_slots_none(v: VersionsView, types: Seq<TypeView>, n: int)
    requires
        0 <= n <= types.len(),
        call_slots(v, types.take(n)) is None,
    ensures
        call_slots(v, types) is None,
    decreases types.len(),
{
    if n < types.len() {
        assert(types.drop_last().take(n) =~= types.take(n));
        lemma_call_slots_none(v, types.drop_last(), n);
    } else {
        assert(types.take(n) =~= types);
    }
}

fn bind_inputs(parameters: &Vec<Variable>, args: &Vec<Expression>) -> (r: Vec<Statement>)
    ensures
        views(r@) == input_bindings(views(parameters@), views(args@)),
{
    let n = if parameters.len() <= args.len() {
        parameters.len()
    } else {
        args.len()
    };
    let mut out: Vec<Statement> = Vec::new();
    let mut i: usize = 0;
    while i < n
        invariant
            i <= n,
            n <= parameters.len(),
            n <= args.len(),
            out.len() == i,
            forall|j: int|
                0 <= j < i ==> (#[trigger] out@[j])@ == StatementView::Definition(
                    VariableView { id: parameters@[j]@.id, ty: args@[j]@.ty },
                    args@[j]@,
                ),
        decreases n - i,
    {
        proof {
            lemma_expression_view(args@[i as int]);
        }
        out.push(
            Statement::Definition(
                Variable { id: parameters[i].id.duplicate(), ty: args[i].ty.duplicate() },
                args[i].duplicate(),
            ),
        );
        i += 1;
    }
    assert(views(out@) =~= input_bindings(views(parameters@), views(args@)));
    out
}

fn bind_outputs(slots: &Vec<Variable>, returned: &Vec<Expression>) -> (r: Vec<Statement>)
    requires
        slots.len() == returned.len(),
    ensures
        views(r@) == output_bindings(views(slots@), views(returned@)),
{
    let mut out: Vec<Statement> = Vec::new();
    let mut i: usize = 0;
    while i < slots.len()
        invariant
            i <= slots.len(),
            slots.len() == returned.len(),
            out.len() == i,
            forall|j: int|
                0 <= j < i ==> (#[trigger] out@[j])@ == StatementView::Definition(
                    slots@[j]@,
                    returned@[j]@,
                ),
        decreases slots.len() - i,
    {
        out.push(Statement::Definition(slots[i].duplicate(), returned[i].duplicate()));
        i += 1;
    }
    assert(views(out@) =~= output_bindings(views(slots@), views(returned@)));
    out
}

fn read_slots(slots: &Vec<Variable>) -> (r: Vec<Expression>)
    ensures
        views(r@) == slot_reads(views(slots@)),
{
    let mut out: Vec<Expression> = Vec::new();
    let mut i: usize = 0;
    while i < slots.len()
        invariant
            i <= slots.len(),
            out.len() == i,
            forall|j: int|
                0 <= j < i ==> (#[trigger] out@[j])@ == (ExpressionView {
                    ty: slots@[j]@.ty,
                    inner: ExpressionInnerView::Identifier(slots@[j]@.id),
                }),
        decreases slots.len() - i,
    {
        let e = Expression {
            ty: slots[i].ty.duplicate(),
            inner: ExpressionInner::Identifier(slots[i].id.duplicate()),
        };
        proof {
            lemma_expression_view(e);
        }
        out.push(e);
        i += 1;
    }
    assert(views(out@) =~= slot_reads(views(slots@)));
    out
}

fn hand_back(key: &FunctionKey, arguments: &Vec<Expression>, output_types: &Vec<Type>) -> (r:
    InlineError)
    ensures
        r@ == InlineErrorView::NonConstant(key@, views(arguments@), views(output_types@)),
{
    InlineError::NonConstant(key.duplicate(), duplicate_all(arguments), duplicate_all(output_types))
}

fn inline_here(
    f: &TypedFunction,
    key: &FunctionKey,
    assignment: GenericsAssignment,
    concrete: FunctionKey,
    arguments: &Vec<Expression>,
    output_types: &Vec<Type>,
    cache: &mut CallCache,
    versions: &mut Versions,
) -> (r: Result<Output<(Vec<Statement>, Vec<Expression>), Vec<Versions>>, InlineError>)
    requires
        concrete@ == concrete_key(key@, views(arguments@), views(output_types@)),
    ensures
        ({
            let o = inline_function(
                f@,
                key@,
                assignment@,
                views(arguments@),
                views(output_types@),
                old(cache)@,
                old(versions)@,
            );
            &&& match o.result {
                Ok(inlined) => r is Ok && inlined_view(r->Ok_0) == inlined,
                Err(e) => r is Err && r->Err_0@ == e,
            }
            &&& final(cache)@ == o.cache
            &&& !(o.result == Err::<Inlined, InlineErrorView>(InlineErrorView::Exhausted))
                ==> final(versions)@ == o.versions
        }),
{
    let (g, backups) = match ShallowTransformer::transform(f, &assignment, versions) {
        None => {
            return Err(InlineError::Exhausted);
        },
        Some(Output::Complete(g)) => (g, None),
        Some(Output::Incomplete(g, backups)) => (g, Some(backups)),
    };
    let (body, mut returned) = split_returns(&g.statements);
    if returned.len() != 1 {
        return Err(hand_back(key, arguments, output_types));
    }
    let returned = returned.pop().unwrap();
    if returned.len() != output_types.len() {
        return Err(hand_back(key, arguments, output_types));
    }
    let slots = match issue_call_slots(versions, output_types) {
        None => {
            return Err(InlineError::Exhausted);
        },
        Some(slots) => slots,
    };
    proof {
        lemma_call_slots_len(old(versions)@, views(output_types@));
        let t = ssa_function(f@, assignment@, old(versions)@).unwrap().0;
        lemma_call_slots_len(t.versions, views(output_types@));
    }
    let expressions = read_slots(&slots);
    let mut statements: Vec<Statement> = Vec::new();
    statements.push(Statement::PushCallLog(key.duplicate(), assignment));
    let mut inputs = bind_inputs(&g.arguments, arguments);
    let mut outputs = bind_outputs(&slots, &returned);
    let mut body = body;
    let ghost s0 = views(statements@);
    let ghost s1 = views(inputs@);
    let ghost s2 = views(body@);
    let ghost s3 = views(outputs@);
    statements.append(&mut inputs);
    statements.append(&mut body);
    statements.append(&mut outputs);
    statements.push(Statement::PopCallLog);
    proof {
        assert(s0 =~= seq![StatementView::PushCallLog(key@, assignment@)]);
        assert(views(statements@) =~= s0 + s1 + s2 + s3 + seq![StatementView::PopCallLog]);
    }
    let results = duplicate_all(&expressions);
    proof {
        assert(views(results@).len() == results@.len());
        assert(views(slots@).len() == slots@.len());
        assert(views(output_types@).len() == output_types@.len());
        assert(results@.len() == concrete@.signature.outputs.len());
    }
    cache.insert(concrete, duplicate_all(arguments), results);
    match backups {
        None => Ok(Output::Complete((statements, expressions))),
        Some(backups) => Ok(Output::Incomplete((statements, expressions), backups)),
    }
}

/// There are as many slots as result types.
pub proof fn lemma_call_slots_len(v: VersionsView, types: Seq<TypeView>)
    ensures
        call_slots(v, types) is Some ==> call_slots(v, types).unwrap().1.len() == types.len(),
    decreases types.len(),
{
    if types.len() > 0 {
        lemma_call_slots_len(v, types.drop_last());
    }
}

/// Inlining a call gives as many expressions as the call has result types,
/// and keeps the cache to as many results for each call as its key has
/// output types.
pub proof fn lemma_inlining_sized(
    key: FunctionKeyView,
    args: Seq<ExpressionView>,
    types: Seq<TypeView>,
    p: ProgramView,
    cache: CacheView,
    versions: VersionsView,
)
    requires
        cache_sized(cache),
    ensures
        ({
            let o = inlining(key, args, types, p, cache, versions);
            &&& cache_sized(o.cache)
            &&& match o.result {
                Ok(inlined) => inlined.expressions.len() == types.len(),
                Err(_) => true,
            }
        }),
{
    match resolve(p, key) {
        Some(SymbolView::Here(f)) => {
            let concrete = concrete_key(key, args, types);
            match specialize(key.signature, concrete.signature) {
                None => {},
                Some(assignment) => {
                    lemma_cache_get_sized(cache, concrete, args);
                    match ssa_function(f, assignment, versions) {
                        None => {},
                        Some((t, g)) => {
                            lemma_call_slots_len(t.versions, types);
                            let o = inline_function(
                                f,
                                key,
                                assignment,
                                args,
                                types,
                                cache,
                                versions,
                            );
                            assert forall|i: int| 0 <= i < o.cache.len() implies (
                            #[trigger] o.cache[i]).2.len()
                                == o.cache[i].0.signature.outputs.len() by {
                                if i < cache.len() {
                                    assert(o.cache[i] == cache[i]);
                                }
                            }
                        },
                    }
                },
            }
        },
        _ => {},
    }
}

/// Inlines a call of `key` with the given arguments and result types.
///
/// After `Exhausted` the versions are spent.
pub fn inline_call(
    key: &FunctionKey,
    arguments: &Vec<Expression>,
    output_types: &Vec<Type>,
    program: &TypedProgram,
    cache: &mut CallCache,
    versions: &mut Versions,
) -> (r: Result<Output<(Vec<Statement>, Vec<Expression>), Vec<Versions>>, InlineError>)
    ensures
        ({
            let o = inlining(
                key@,
                views(arguments@),
                views(output_types@),
                program@,
                old(cache)@,
                old(versions)@,
            );
            &&& match o.result {
                Ok(inlined) => r is Ok && inlined_view(r->Ok_0) == inlined,
                Err(e) => r is Err && r->Err_0@ == e,
            }
            &&& final(cache)@ == o.cache
            &&& !(o.result == Err::<Inlined, InlineErrorView>(InlineErrorView::Exhausted))
                ==> final(versions)@ == o.versions
        }),
        r is Ok ==> inlined_view(r->Ok_0).expressions.len() == output_types@.len(),
{
    proof {
        use_type_invariant(&*cache);
        lemma_inlining_sized(
            key@,
            views(arguments@),
            views(output_types@),
            program@,
            cache@,
            versions@,
        );
    }
    let f = match program.resolve(key) {
        None => {
            return Err(hand_back(key, arguments, output_types));
        },
        Some(TypedFunctionSymbol::Flat(e)) => {
            return Err(
                InlineError::Flat(*e, duplicate_all(arguments), duplicate_all(output_types)),
            );
        },
        Some(TypedFunctionSymbol::Here(f)) => f,
    };
    let inputs = types_of(arguments);
    if !types_are_concrete(&inputs) || !types_are_concrete(output_types) {
        return Err(hand_back(key, arguments, output_types));
    }
    let concrete = FunctionKey {
        module: key.module.clone(),
        id: key.id.clone(),
        signature: Signature { inputs, outputs: duplicate_all(output_types) },
    };
    let assignment = match key.signature.specialize(&concrete.signature) {
        None => {
            return Err(InlineError::Generic(key.duplicate(), concrete));
        },
        Some(bindings) => GenericsAssignment(bindings),
    };
    match cache.get(&concrete, arguments) {
        Some(results) => {
            let statements: Vec<Statement> = Vec::new();
            assert(views(statements@) =~= Seq::empty());
            Ok(Output::Complete((statements, results)))
        },
        None => inline_here(
            f,
            key,
            assignment,
            concrete,
            arguments,
            output_types,
            cache,
            versions,
        ),
    }
}

} // verus!
