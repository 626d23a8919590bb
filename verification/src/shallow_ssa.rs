//! Shallow single-assignment form: every definition in a body gets a fresh
//! version of its variable and every read the latest one. Loops and calls
//! stay where they are; they are recorded, not entered.

use crate::absy::{
    duplicate_statements, lemma_child_decreases, lemma_expression_view, lemma_for_view, Expression,
    ExpressionInner, ExpressionInnerView, ExpressionView, FunctionView, Statement, StatementView,
    TypedFunction, Variable, VariableView,
};
use crate::identifier::{CoreIdentifier, CoreIdentifierView, Identifier, IdentifierView};
use crate::model::{duplicate_all, views, Modelled};
use crate::rename::{
    rename_expression, rename_expressions, rename_type, rename_types, Renamer, Renaming,
};
use crate::types::{GenericsAssignment, Type, TypeView, UBitwidth};
use crate::versions::{can_shift, next_version, shifted, Versions, VersionsView};
use crate::Output;
use vstd::prelude::*;

verus! {

/// Whether a call occurs in an expression.
pub open spec fn has_call(e: ExpressionView) -> bool
    decreases e,
{
    match e.inner {
        ExpressionInnerView::FunctionCall(_, _) => true,
        ExpressionInnerView::Values(es) => any_has_call(es),
        ExpressionInnerView::Operation(_, es) => any_has_call(es),
        _ => false,
    }
}

/// Whether a call occurs in one of the expressions.
pub open spec fn any_has_call(es: Seq<ExpressionView>) -> bool
    decreases es,
{
    exists|i: int| 0 <= i < es.len() && has_call(es[i])
}

/// Mathematical model of a [`ShallowTransformer`].
pub struct ShallowView {
    pub versions: VersionsView,
    pub backups: Seq<VersionsView>,
    pub blocked: bool,
}

/// A transformer that starts from the given versions.
pub open spec fn shallow_start(versions: VersionsView) -> ShallowView {
    ShallowView { versions, backups: Seq::empty(), blocked: false }
}

/// Gives the variable the next version of its name. Its type is read at the
/// versions that hold after that. `None` where the versions have run out.
pub open spec fn define(t: ShallowView, v: VariableView) -> Option<(ShallowView, VariableView)> {
    match next_version(t.versions, v.id.id) {
        None => None,
        Some(n) => {
            let versions = t.versions.insert(v.id.id, n);
            Some(
                (
                    ShallowView { versions, ..t },
                    VariableView {
                        id: IdentifierView { id: v.id.id, version: n },
                        ty: rename_type(Renaming::Latest(versions), v.ty),
                    },
                ),
            )
        },
    }
}

/// Gives each variable in turn the next version of its name.
pub open spec fn define_all(t: ShallowView, vs: Seq<VariableView>) -> Option<
    (ShallowView, Seq<VariableView>),
>
    decreases vs.len(),
{
    if vs.len() == 0 {
        Some((t, Seq::empty()))
    } else {
        match define_all(t, vs.drop_last()) {
            None => None,
            Some((t1, out)) => match define(t1, vs.last()) {
                None => None,
                Some((t2, v)) => Some((t2, out.push(v))),
            },
        }
    }
}

/// One statement in shallow single-assignment form, and the transformer
/// after it.
///
/// - A definition reads its expression at the latest versions, then gives
///   its variable the next one.
/// - A call statement reads its arguments, gives its variables their next
///   versions, and blocks the transformer.
/// - A loop keeps its variable and body. Its bounds are read, the versions
///   before it are recorded, every version is raised by two, and the
///   transformer is blocked.
/// - A call inside an expression blocks the transformer.
pub open spec fn ssa_statement(t: ShallowView, s: StatementView) -> Option<
    (ShallowView, StatementView),
> {
    let r = Renaming::Latest(t.versions);
    match s {
        StatementView::Definition(v, e) => {
            let t1 = ShallowView { blocked: t.blocked || has_call(e), ..t };
            match define(t1, v) {
                None => None,
                Some((t2, v2)) => Some((t2, StatementView::Definition(v2, rename_expression(r, e)))),
            }
        },
        StatementView::MultipleDefinition(vs, key, args, types) => {
            let t1 = ShallowView { blocked: true, ..t };
            match define_all(t1, vs) {
                None => None,
                Some((t2, vs2)) => Some(
                    (
                        t2,
                        StatementView::MultipleDefinition(
                            vs2,
                            key,
                            rename_expressions(r, args),
                            rename_types(r, types),
                        ),
                    ),
                ),
            }
        },
        StatementView::Return(es) => Some(
            (
                ShallowView { blocked: t.blocked || any_has_call(es), ..t },
                StatementView::Return(rename_expressions(r, es)),
            ),
        ),
        StatementView::For(v, from, to, body) => {
            if can_shift(t.versions, 2) {
                Some(
                    (
                        ShallowView {
                            versions: shifted(t.versions, 2),
                            backups: t.backups.push(t.versions),
                            blocked: true,
                        },
                        StatementView::For(
                            v,
                            rename_expression(r, from),
                            rename_expression(r, to),
                            body,
                        ),
                    ),
                )
            } else {
                None
            }
        },
        StatementView::PushCallLog(key, generics) => Some((t, s)),
        StatementView::PopCallLog => Some((t, s)),
    }
}

/// The statements of a body in shallow single-assignment form, from the
/// first to the last, and the transformer after them.
pub open spec fn ssa_statements(t: ShallowView, body: Seq<StatementView>) -> Option<
    (ShallowView, Seq<StatementView>),
>
    decreases body.len(),
{
    if body.len() == 0 {
        Some((t, Seq::empty()))
    } else {
        match ssa_statements(t, body.drop_last()) {
            None => None,
            Some((t1, out)) => match ssa_statement(t1, body.last()) {
                None => None,
                Some((t2, s)) => Some((t2, out.push(s))),
            },
        }
    }
}

/// The definition that binds a generic parameter to its value.
pub open spec fn generic_definition(binding: (Seq<char>, u32)) -> StatementView {
    StatementView::Definition(
        VariableView {
            id: IdentifierView { id: CoreIdentifierView::Source(binding.0), version: 0 },
            ty: TypeView::Uint(UBitwidth::B32),
        },
        ExpressionView {
            ty: TypeView::Uint(UBitwidth::B32),
            inner: ExpressionInnerView::Value(binding.1 as u128),
        },
    )
}

/// One definition for each generic parameter, in the order of the
/// assignment.
pub open spec fn generic_definitions(generics: Seq<(Seq<char>, u32)>) -> Seq<StatementView> {
    Seq::new(generics.len(), |i: int| generic_definition(generics[i]))
}

/// A function in shallow single-assignment form: its parameters get their
/// next versions, then the definitions of the generic parameters and the
/// body are transformed in order.
pub open spec fn ssa_function(
    f: FunctionView,
    generics: Seq<(Seq<char>, u32)>,
    versions: VersionsView,
) -> Option<(ShallowView, FunctionView)> {
    match define_all(shallow_start(versions), f.arguments) {
        None => None,
        Some((t1, arguments)) => match ssa_statements(
            t1,
            generic_definitions(generics) + f.statements,
        ) {
            None => None,
            Some((t2, statements)) => Some(
                (
                    t2,
                    FunctionView {
                        generics: f.generics,
                        arguments,
                        statements,
                        signature: f.signature,
                    },
                ),
            ),
        },
    }
}

/// Whether an expression holds a call.
pub fn expression_has_call(e: &Expression) -> (r: bool)
    ensures
        r == has_call(e@),
    decreases e, 1nat,
{
    proof {
        lemma_expression_view(*e);
    }
    match &e.inner {
        ExpressionInner::FunctionCall(_, _) => true,
        ExpressionInner::Values(es) => operands_have_call(e, es),
        ExpressionInner::Operation(_, es) => operands_have_call(e, es),
        _ => false,
    }
}

fn operands_have_call(parent: &Expression, es: &Vec<Expression>) -> (r: bool)
    requires
        parent.children() == es@,
    ensures
        r == any_has_call(views(es@)),
    decreases parent, 0nat,
{
    let mut i: usize = 0;
    while i < es.len()
        invariant
            i <= es.len(),
            parent.children() == es@,
            forall|j: int| 0 <= j < i ==> !has_call(#[trigger] views(es@)[j]),
        decreases es.len() - i,
    {
        proof {
            lemma_child_decreases(*parent, i as int);
        }
        if expression_has_call(&es[i]) {
            assert(has_call(views(es@)[i as int]));
            return true;
        }
        i += 1;
    }
    false
}

/// Whether one of the expressions holds a call.
pub fn expressions_have_call(es: &Vec<Expression>) -> (r: bool)
    ensures
        r == any_has_call(views(es@)),
{
    let mut i: usize = 0;
    while i < es.len()
        invariant
            i <= es.len(),
            forall|j: int| 0 <= j < i ==> !has_call(#[trigger] views(es@)[j]),
        decreases es.len() - i,
    {
        if expression_has_call(&es[i]) {
            assert(has_call(views(es@)[i as int]));
            return true;
        }
        i += 1;
    }
    false
}

/// Turns bodies into shallow single-assignment form, issuing versions from
/// the map it holds.
pub struct ShallowTransformer {
    /// The latest version of each name.
    pub versions: Versions,
    /// The versions before each loop that was passed, in order.
    pub for_loop_backups: Vec<Versions>,
    /// Whether a loop or a call was passed.
    pub blocked: bool,
}

impl View for ShallowTransformer {
    type V = ShallowView;

    open spec fn view(&self) -> ShallowView {
        ShallowView {
            versions: self.versions@,
            backups: views(self.for_loop_backups@),
            blocked: self.blocked,
        }
    }
}

impl ShallowTransformer {
    /// A transformer that continues from the given versions.
    pub fn with_versions(versions: Versions) -> (r: ShallowTransformer)
        ensures
            r@ == shallow_start(versions@),
    {
        let r = ShallowTransformer { versions, for_loop_backups: Vec::new(), blocked: false };
        assert(r@.backups =~= Seq::empty());
        r
    }

    /// Gives the variable the next version of its name. After `None` the
    /// transformer is spent.
    pub fn issue_next_ssa_variable(&mut self, v: &Variable) -> (r: Option<Variable>)
        ensures
            match define(old(self)@, v@) {
                None => r is None,
                Some((t, w)) => r is Some && r->0@ == w && final(self)@ == t,
            },
    {
        match self.versions.fresh(&v.id.id) {
            None => None,
            Some(n) => {
                let ty = Renamer::Latest(&self.versions).ty(&v.ty);
                Some(Variable { id: Identifier { id: v.id.id.duplicate(), version: n }, ty })
            },
        }
    }

    fn issue_all(&mut self, vs: &Vec<Variable>) -> (r: Option<Vec<Variable>>)
        ensures
            match define_all(old(self)@, views(vs@)) {
                None => r is None,
                Some((t, ws)) => r is Some && views(r->0@) == ws && final(self)@ == t,
            },
    {
        let ghost start = self@;
        let ghost all = views(vs@);
        let mut out: Vec<Variable> = Vec::new();
        let mut i: usize = 0;
        assert(all.take(0) =~= Seq::empty());
        assert(views(out@) =~= Seq::empty());
        while i < vs.len()
            invariant
                i <= vs.len(),
                all == views(vs@),
                start == old(self)@,
                define_all(start, all.take(i as int)) == Some((self@, views(out@))),
            decreases vs.len() - i,
        {
            proof {
                assert(all.take(i + 1).drop_last() =~= all.take(i as int));
                assert(all.take(i + 1).last() == vs@[i as int]@);
            }
            let ghost before = views(out@);
            let ghost pre = self@;
            match self.issue_next_ssa_variable(&vs[i]) {
                None => {
                    proof {
                        assert(define(pre, all.take(i + 1).last()) is None);
                        assert(define_all(start, all.take(i + 1)) is None);
                        lemma_define_all_none(start, all, i + 1);
                    }
                    return None;
                },
                Some(v) => {
                    out.push(v);
                    assert(views(out@) =~= before.push(v@));
                },
            }
            i += 1;
        }
        assert(all.take(vs.len() as int) =~= all);
        Some(out)
    }

    /// One statement in shallow single-assignment form. After `None` the
    /// transformer is spent.
    pub fn fold_statement(&mut self, s: &Statement) -> (r: Option<Statement>)
        ensures
            match ssa_statement(old(self)@, s@) {
                None => r is None,
                Some((t, st)) => r is Some && r->0@ == st && final(self)@ == t,
            },
    {
        match s {
            Statement::Definition(v, e) => {
                let e2 = Renamer::Latest(&self.versions).expression(e);
                if expression_has_call(e) {
                    self.blocked = true;
                }
                match self.issue_next_ssa_variable(v) {
                    None => None,
                    Some(v2) => Some(Statement::Definition(v2, e2)),
                }
            },
            Statement::MultipleDefinition(vs, key, args, types) => {
                let args2 = Renamer::Latest(&self.versions).expressions(args);
                let types2 = Renamer::Latest(&self.versions).types(types);
                self.blocked = true;
                match self.issue_all(vs) {
                    None => None,
                    Some(vs2) => Some(
                        Statement::MultipleDefinition(vs2, key.duplicate(), args2, types2),
                    ),
                }
            },
            Statement::Return(es) => {
                let es2 = Renamer::Latest(&self.versions).expressions(es);
                if expressions_have_call(es) {
                    self.blocked = true;
                }
                Some(Statement::Return(es2))
            },
            Statement::For(v, from, to, body) => {
                let from2 = Renamer::Latest(&self.versions).expression(from);
                let to2 = Renamer::Latest(&self.versions).expression(to);
                let backup = self.versions.snapshot();
                if !self.versions.shift(2) {
                    return None;
                }
                let ghost before = views(self.for_loop_backups@);
                self.for_loop_backups.push(backup);
                self.blocked = true;
                let r = Statement::For(
                    v.duplicate(),
                    from2,
                    to2,
                    duplicate_statements(body),
                );
                proof {
                    lemma_for_view(*s);
                    lemma_for_view(r);
                    assert(views(self.for_loop_backups@) =~= before.push(backup@));
                }
                Some(r)
            },
            Statement::PushCallLog(key, generics) => Some(
                Statement::PushCallLog(key.duplicate(), generics.duplicate()),
            ),
            Statement::PopCallLog => Some(Statement::PopCallLog),
        }
    }

    /// The statements of a body in shallow single-assignment form. After
    /// `None` the transformer is spent.
    pub fn fold_statements(&mut self, body: &Vec<Statement>) -> (r: Option<Vec<Statement>>)
        ensures
            match ssa_statements(old(self)@, views(body@)) {
                None => r is None,
                Some((t, out)) => r is Some && views(r->0@) == out && final(self)@ == t,
            },
    {
        let ghost start = self@;
        let ghost all = views(body@);
        let mut out: Vec<Statement> = Vec::new();
        let mut i: usize = 0;
        assert(all.take(0) =~= Seq::empty());
        assert(views(out@) =~= Seq::empty());
        while i < body.len()
            invariant
                i <= body.len(),
                all == views(body@),
                start == old(self)@,
                ssa_statements(start, all.take(i as int)) == Some((self@, views(out@))),
            decreases body.len() - i,
        {
            proof {
                assert(all.take(i + 1).drop_last() =~= all.take(i as int));
                assert(all.take(i + 1).last() == body@[i as int]@);
            }
            let ghost before = views(out@);
            let ghost pre = self@;
            match self.fold_statement(&body[i]) {
                None => {
                    proof {
                        assert(ssa_statement(pre, all.take(i + 1).last()) is None);
                        assert(ssa_statements(start, all.take(i + 1)) is None);
                        assert(all =~= all.take(i + 1) + all.skip(i + 1));
                        lemma_ssa_statements_concat(start, all.take(i + 1), all.skip(i + 1));
                    }
                    return None;
                },
                Some(st) => {
                    out.push(st);
                    assert(views(out@) =~= before.push(st@));
                },
            }
            i += 1;
        }
        assert(all.take(body.len() as int) =~= all);
        Some(out)
    }

    /// A function in shallow single-assignment form, with versions issued
    /// from `versions`: complete where no loop and no call was passed, else
    /// with the versions before each loop. After `None` the versions are
    /// spent.
    pub fn transform(f: &TypedFunction, generics: &GenericsAssignment, versions: &mut Versions) -> (r:
        Option<Output<TypedFunction, Vec<Versions>>>)
        ensures
            match ssa_function(f@, generics@, old(versions)@) {
                None => r is None,
                Some((t, g)) => {
                    &&& r is Some
                    &&& final(versions)@ == t.versions
                    &&& if t.blocked {
                        &&& r->0 is Incomplete
                        &&& r->0->Incomplete_0@ == g
                        &&& views(r->0->Incomplete_1@) == t.backups
                    } else {
                        &&& r->0 is Complete
                        &&& r->0->Complete_0@ == g
                    }
                },
            },
    {
        let mut taken = Versions::new();
        core::mem::swap(versions, &mut taken);
        let mut ssa = ShallowTransformer::with_versions(taken);
        let arguments = match ssa.issue_all(&f.arguments) {
            None => {
                return None;
            },
            Some(arguments) => arguments,
        };
        let ghost t1 = ssa@;
        let bindings = generic_bindings(generics);
        let mut statements = match ssa.fold_statements(&bindings) {
            None => {
                proof {
                    lemma_ssa_statements_concat(t1, generic_definitions(generics@), f@.statements);
                }
                return None;
            },
            Some(statements) => statements,
        };
        let ghost head = views(statements@);
        let mut body = match ssa.fold_statements(&f.statements) {
            None => {
                proof {
                    lemma_ssa_statements_concat(t1, generic_definitions(generics@), f@.statements);
                }
                return None;
            },
            Some(body) => body,
        };
        let ghost tail = views(body@);
        statements.append(&mut body);
        proof {
            lemma_ssa_statements_concat(t1, generic_definitions(generics@), f@.statements);
            assert(views(statements@) =~= head + tail);
        }
        let g = TypedFunction {
            generics: duplicate_all(&f.generics),
            arguments,
            statements,
            signature: f.signature.duplicate(),
        };
        core::mem::swap(versions, &mut ssa.versions);
        if ssa.blocked {
            Some(Output::Incomplete(g, ssa.for_loop_backups))
        } else {
            Some(Output::Complete(g))
        }
    }
}

/// The definitions that bind the generic parameters of an assignment.
pub fn generic_bindings(generics: &GenericsAssignment) -> (r: Vec<Statement>)
    ensures
        views(r@) == generic_definitions(generics@),
{
    let mut out: Vec<Statement> = Vec::new();
    let mut i: usize = 0;
    while i < generics.0.len()
        invariant
            i <= generics.0.len(),
            out.len() == i,
            forall|j: int|
                0 <= j < i ==> (#[trigger] out@[j])@ == generic_definition(generics.0@[j]@),
        decreases generics.0.len() - i,
    {
        let binding = &generics.0[i];
        let st = Statement::Definition(
            Variable {
                id: Identifier { id: CoreIdentifier::Source(binding.name.clone()), version: 0 },
                ty: Type::Uint(UBitwidth::B32),
            },
            Expression {
                ty: Type::Uint(UBitwidth::B32),
                inner: ExpressionInner::Value(binding.value as u128),
            },
        );
        proof {
            lemma_expression_view(st->Definition_1);
        }
        out.push(st);
        i += 1;
    }
    assert(views(out@) =~= generic_definitions(generics@));
    out
}

/// Transforming two bodies one after the other is transforming the first,
/// then the second from where the first ended.
pub proof fn lemma_ssa_statements_concat(t: ShallowView, a: Seq<StatementView>, b: Seq<StatementView>)
    ensures
        ssa_statements(t, a + b) == (match ssa_statements(t, a) {
            None => None,
            Some((t1, o1)) => match ssa_statements(t1, b) {
                None => None,
                Some((t2, o2)) => Some((t2, o1 + o2)),
            },
        }),
    decreases b.len(),
{
    if b.len() == 0 {
        assert(a + b =~= a);
        match ssa_statements(t, a) {
            None => {},
            Some((t1, o1)) => {
                assert(o1 + Seq::<StatementView>::empty() =~= o1);
            },
        }
    } else {
        assert((a + b).drop_last() =~= a + b.drop_last());
        assert((a + b).last() == b.last());
        lemma_ssa_statements_concat(t, a, b.drop_last());
        match ssa_statements(t, a) {
            None => {},
            Some((t1, o1)) => {
                match ssa_statements(t1, b.drop_last()) {
                    None => {},
                    Some((t2, o2)) => {
                        match ssa_statement(t2, b.last()) {
                            None => {},
                            Some((t3, st)) => {
                                assert((o1 + o2).push(st) =~= o1 + o2.push(st));
                            },
                        }
                    },
                }
            },
        }
    }
}

/// Where a prefix of the variables cannot all be given versions, neither
/// can a longer one.
pub proof fn lemma_define_all_none(t: ShallowView, vs: Seq<VariableView>, n: int)
    requires
        0 <= n <= vs.len(),
        define_all(t, vs.take(n)) is None,
    ensures
        define_all(t, vs) is None,
    decreases vs.len(),
{
    if n < vs.len() {
        assert(vs.drop_last().take(n) =~= vs.take(n));
        lemma_define_all_none(t, vs.drop_last(), n);
    } else {
        assert(vs.take(n) =~= vs);
    }
}

/// Giving variables their versions changes nothing else in the
/// transformer, and gives as many variables back.
pub proof fn lemma_define_all_keeps(t: ShallowView, vs: Seq<VariableView>)
    ensures
        match define_all(t, vs) {
            None => true,
            Some((t1, out)) => {
                &&& t1.blocked == t.blocked
                &&& t1.backups == t.backups
                &&& out.len() == vs.len()
            },
        },
    decreases vs.len(),
{
    if vs.len() > 0 {
        lemma_define_all_keeps(t, vs.drop_last());
    }
}

} // verus!
