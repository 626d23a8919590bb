//! Applying a substitution map to a function: every occurrence of an
//! identifier gets the version that the map gives it.

use crate::absy::{
    lemma_for_view, FunctionView, Statement, StatementView, TypedFunction,
};
use crate::identifier::Identifier;
use crate::model::{duplicate_all, views, Modelled};
use crate::rename::{
    rename_expression, rename_expressions, rename_identifier, rename_types, rename_variable,
    rename_variables, Renamer, Renaming,
};
use crate::substitution::{Substitutions, SubstitutionsView};
use vstd::prelude::*;

verus! {

/// The statement with the substitution applied to every identifier in it,
/// the bodies of loops included. Versions without a rewrite stay.
pub open spec fn apply_statement(s: SubstitutionsView, st: StatementView) -> StatementView
    decreases st,
{
    let r = Renaming::Substitute(s);
    match st {
        StatementView::Definition(v, e) => StatementView::Definition(
            rename_variable(r, v),
            rename_expression(r, e),
        ),
        StatementView::MultipleDefinition(vs, key, args, types) => {
            StatementView::MultipleDefinition(
                rename_variables(r, vs),
                key,
                rename_expressions(r, args),
                rename_types(r, types),
            )
        },
        StatementView::Return(es) => StatementView::Return(rename_expressions(r, es)),
        StatementView::For(v, from, to, body) => StatementView::For(
            rename_variable(r, v),
            rename_expression(r, from),
            rename_expression(r, to),
            Seq::new(
                body.len(),
                |i: int|
                    if 0 <= i < body.len() {
                        apply_statement(s, body[i])
                    } else {
                        arbitrary()
                    },
            ),
        ),
        StatementView::PushCallLog(key, generics) => StatementView::PushCallLog(key, generics),
        StatementView::PopCallLog => StatementView::PopCallLog,
    }
}

/// The statements of a body, each with the substitution applied.
pub open spec fn apply_statements(s: SubstitutionsView, body: Seq<StatementView>) -> Seq<
    StatementView,
> {
    Seq::new(body.len(), |i: int| apply_statement(s, body[i]))
}

/// The function with the substitution applied to its parameters and to its
/// body.
pub open spec fn apply_function(s: SubstitutionsView, f: FunctionView) -> FunctionView {
    FunctionView {
        generics: f.generics,
        arguments: rename_variables(Renaming::Substitute(s), f.arguments),
        statements: apply_statements(s, f.statements),
        signature: f.signature,
    }
}

/// Applying a substitution to a loop applies it to the statements of its
/// body.
pub proof fn lemma_apply_for(s: SubstitutionsView, st: StatementView)
    requires
        st is For,
    ensures
        apply_statement(s, st) == StatementView::For(
            rename_variable(Renaming::Substitute(s), st->For_0),
            rename_expression(Renaming::Substitute(s), st->For_1),
            rename_expression(Renaming::Substitute(s), st->For_2),
            apply_statements(s, st->For_3),
        ),
{
    assert(apply_statement(s, st)->For_3 =~= apply_statements(s, st->For_3));
}

/// Applies a substitution map.
pub struct Sub<'a> {
    substitutions: &'a Substitutions,
}

impl<'a> View for Sub<'a> {
    type V = SubstitutionsView;

    closed spec fn view(&self) -> SubstitutionsView {
        self.substitutions@
    }
}

impl<'a> Sub<'a> {
    /// What applies the given substitution map.
    pub fn new(substitutions: &'a Substitutions) -> (r: Self)
        ensures
            r@ == substitutions@,
    {
        Sub { substitutions }
    }

    /// The identifier at the version that the map gives it: the target of
    /// its rewrite, or its own version where the map has none for it.
    pub fn fold_name(&self, id: Identifier) -> (r: Identifier)
        ensures
            r@ == rename_identifier(Renaming::Substitute(self@), id@),
    {
        let version = self.substitutions.target(&id);
        id.version(version)
    }

    /// The statement with the map applied.
    pub fn fold_statement(&self, s: &Statement) -> (r: Statement)
        ensures
            r@ == apply_statement(self@, s@),
        decreases s, 1nat,
    {
        let renamer = Renamer::Substitute(self.substitutions);
        match s {
            Statement::Definition(v, e) => Statement::Definition(
                renamer.variable(v),
                renamer.expression(e),
            ),
            Statement::MultipleDefinition(vs, key, args, types) => Statement::MultipleDefinition(
                renamer.variables(vs),
                key.duplicate(),
                renamer.expressions(args),
                renamer.types(types),
            ),
            Statement::Return(es) => Statement::Return(renamer.expressions(es)),
            Statement::For(v, from, to, body) => {
                let r = Statement::For(
                    renamer.variable(v),
                    renamer.expression(from),
                    renamer.expression(to),
                    self.fold_statements(body),
                );
                proof {
                    lemma_for_view(*s);
                    lemma_for_view(r);
                    lemma_apply_for(self@, s@);
                }
                r
            },
            Statement::PushCallLog(key, generics) => Statement::PushCallLog(
                key.duplicate(),
                generics.duplicate(),
            ),
            Statement::PopCallLog => Statement::PopCallLog,
        }
    }

    /// The statements of a body, each with the map applied.
    pub fn fold_statements(&self, body: &Vec<Statement>) -> (r: Vec<Statement>)
        ensures
            views(r@) == apply_statements(self@, views(body@)),
        decreases body, 0nat,
    {
        let mut out: Vec<Statement> = Vec::new();
        let mut i: usize = 0;
        while i < body.len()
            invariant
                i <= body.len(),
                out.len() == i,
                forall|j: int|
                    0 <= j < i ==> (#[trigger] out@[j])@ == apply_statement(self@, body@[j]@),
            decreases body.len() - i,
        {
            assert(decreases_to!(body => body[i as int]));
            out.push(self.fold_statement(&body[i]));
            i += 1;
        }
        assert(views(out@) =~= apply_statements(self@, views(body@)));
        out
    }

    /// The function with the map applied to its parameters and its body.
    pub fn fold_function(&self, f: &TypedFunction) -> (r: TypedFunction)
        ensures
            r@ == apply_function(self@, f@),
    {
        let renamer = Renamer::Substitute(self.substitutions);
        TypedFunction {
            generics: duplicate_all(&f.generics),
            arguments: renamer.variables(&f.arguments),
            statements: self.fold_statements(&f.statements),
            signature: f.signature.duplicate(),
        }
    }
}

} // verus!
