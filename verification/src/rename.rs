//! Rewriting the version of every identifier that occurs in a size, a type,
//! a variable or an expression.

use crate::absy::{
    lemma_child_decreases, lemma_expression_view, Expression, ExpressionInner,
    ExpressionInnerView, ExpressionView, Variable, VariableView,
};
use crate::identifier::{Identifier, IdentifierView};
use crate::model::{views, Modelled};
use crate::substitution::{redirect, Substitutions, SubstitutionsView};
use crate::types::{
    lemma_member_decreases, lemma_struct_view, Size, SizeView, Type, TypeView,
};
use crate::versions::{read_version, Versions, VersionsView};
use vstd::prelude::*;

verus! {

/// Mathematical model of a [`Renamer`].
pub enum Renaming {
    /// Every identifier gets the version that a substitution map gives it.
    Substitute(SubstitutionsView),
    /// Every identifier gets the latest version of its name.
    Latest(VersionsView),
}

impl Renaming {
    /// The version that an identifier gets.
    pub open spec fn version(self, id: IdentifierView) -> usize {
        match self {
            Renaming::Substitute(s) => redirect(s, id),
            Renaming::Latest(v) => read_version(v, id.id),
        }
    }
}

/// The identifier at the version that the renaming gives it.
pub open spec fn rename_identifier(r: Renaming, id: IdentifierView) -> IdentifierView {
    IdentifierView { id: id.id, version: r.version(id) }
}

/// The size with every identifier in it renamed.
pub open spec fn rename_size(r: Renaming, s: SizeView) -> SizeView
    decreases s,
{
    match s {
        SizeView::Value(n) => SizeView::Value(n),
        SizeView::Identifier(id) => SizeView::Identifier(rename_identifier(r, id)),
        SizeView::Operation(op, a, b) => SizeView::Operation(
            op,
            Box::new(rename_size(r, *a)),
            Box::new(rename_size(r, *b)),
        ),
    }
}

/// The type with every identifier in its lengths renamed.
pub open spec fn rename_type(r: Renaming, t: TypeView) -> TypeView
    decreases t,
{
    match t {
        TypeView::Array(inner, size) => TypeView::Array(
            Box::new(rename_type(r, *inner)),
            rename_size(r, size),
        ),
        TypeView::Struct(name, members) => TypeView::Struct(
            name,
            Seq::new(
                members.len(),
                |i: int|
                    if 0 <= i < members.len() {
                        (members[i].0, rename_type(r, members[i].1))
                    } else {
                        arbitrary()
                    },
            ),
        ),
        other => other,
    }
}

/// The members of a struct type, each with its type renamed.
pub open spec fn rename_members(r: Renaming, members: Seq<(Seq<char>, TypeView)>) -> Seq<
    (Seq<char>, TypeView),
> {
    Seq::new(members.len(), |i: int| (members[i].0, rename_type(r, members[i].1)))
}

/// Renaming a struct type renames the types of its members.
pub proof fn lemma_rename_struct(r: Renaming, t: TypeView)
    requires
        t is Struct,
    ensures
        rename_type(r, t) == TypeView::Struct(t->Struct_0, rename_members(r, t->Struct_1)),
{
    assert(rename_type(r, t)->Struct_1 =~= rename_members(r, t->Struct_1));
}

/// The variable with its identifier and its type renamed.
pub open spec fn rename_variable(r: Renaming, v: VariableView) -> VariableView {
    VariableView { id: rename_identifier(r, v.id), ty: rename_type(r, v.ty) }
}

/// The expression with every identifier in it renamed, those in its type
/// and in the types of its parts too. The keys of calls stay.
pub open spec fn rename_expression(r: Renaming, e: ExpressionView) -> ExpressionView
    decreases e,
{
    ExpressionView {
        ty: rename_type(r, e.ty),
        inner: match e.inner {
            ExpressionInnerView::Value(v) => ExpressionInnerView::Value(v),
            ExpressionInnerView::Identifier(id) => ExpressionInnerView::Identifier(
                rename_identifier(r, id),
            ),
            ExpressionInnerView::Values(es) => ExpressionInnerView::Values(
                Seq::new(
                    es.len(),
                    |i: int|
                        if 0 <= i < es.len() {
                            rename_expression(r, es[i])
                        } else {
                            arbitrary()
                        },
                ),
            ),
            ExpressionInnerView::Operation(op, es) => ExpressionInnerView::Operation(
                op,
                Seq::new(
                    es.len(),
                    |i: int|
                        if 0 <= i < es.len() {
                            rename_expression(r, es[i])
                        } else {
                            arbitrary()
                        },
                ),
            ),
            ExpressionInnerView::FunctionCall(key, es) => ExpressionInnerView::FunctionCall(
                key,
                Seq::new(
                    es.len(),
                    |i: int|
                        if 0 <= i < es.len() {
                            rename_expression(r, es[i])
                        } else {
                            arbitrary()
                        },
                ),
            ),
        },
    }
}

/// The expressions of a sequence, each renamed.
pub open spec fn rename_expressions(r: Renaming, es: Seq<ExpressionView>) -> Seq<ExpressionView> {
    Seq::new(es.len(), |i: int| rename_expression(r, es[i]))
}

/// The types of a sequence, each renamed.
pub open spec fn rename_types(r: Renaming, ts: Seq<TypeView>) -> Seq<TypeView> {
    Seq::new(ts.len(), |i: int| rename_type(r, ts[i]))
}

/// The variables of a sequence, each renamed.
pub open spec fn rename_variables(r: Renaming, vs: Seq<VariableView>) -> Seq<VariableView> {
    Seq::new(vs.len(), |i: int| rename_variable(r, vs[i]))
}

/// Renaming keeps the form of an expression and renames its operands.
pub proof fn lemma_rename_expression(r: Renaming, e: ExpressionView)
    ensures
        rename_expression(r, e) == (ExpressionView {
            ty: rename_type(r, e.ty),
            inner: match e.inner {
                ExpressionInnerView::Value(v) => ExpressionInnerView::Value(v),
                ExpressionInnerView::Identifier(id) => ExpressionInnerView::Identifier(
                    rename_identifier(r, id),
                ),
                ExpressionInnerView::Values(es) => ExpressionInnerView::Values(
                    rename_expressions(r, es),
                ),
                ExpressionInnerView::Operation(op, es) => ExpressionInnerView::Operation(
                    op,
                    rename_expressions(r, es),
                ),
                ExpressionInnerView::FunctionCall(key, es) => ExpressionInnerView::FunctionCall(
                    key,
                    rename_expressions(r, es),
                ),
            },
        }),
{
    assert(rename_expression(r, e).children() =~= rename_expressions(r, e.children()));
}

/// How the versions of identifiers are rewritten: by a substitution map, or
/// to the latest version of each name.
pub enum Renamer<'a> {
    Substitute(&'a Substitutions),
    Latest(&'a Versions),
}

impl<'a> View for Renamer<'a> {
    type V = Renaming;

    open spec fn view(&self) -> Renaming {
        match *self {
            Renamer::Substitute(s) => Renaming::Substitute(s@),
            Renamer::Latest(v) => Renaming::Latest(v@),
        }
    }
}

impl<'a> Renamer<'a> {
    /// The identifier at the version that the renaming gives it.
    pub fn identifier(&self, id: &Identifier) -> (r: Identifier)
        ensures
            r@ == rename_identifier(self@, id@),
    {
        let version = match self {
            Renamer::Substitute(s) => s.target(id),
            Renamer::Latest(v) => match v.current(&id.id) {
                Some(n) => n,
                None => 0,
            },
        };
        Identifier { id: id.id.duplicate(), version }
    }

    /// The size with every identifier renamed.
    pub fn size(&self, s: &Size) -> (r: Size)
        ensures
            r@ == rename_size(self@, s@),
        decreases s,
    {
        match s {
            Size::Value(n) => Size::Value(*n),
            Size::Identifier(id) => Size::Identifier(self.identifier(id)),
            Size::Operation(op, a, b) => Size::Operation(
                *op,
                Box::new(self.size(&**a)),
                Box::new(self.size(&**b)),
            ),
        }
    }

    /// The type with every identifier in its sizes renamed.
    pub fn ty(&self, t: &Type) -> (r: Type)
        ensures
            r@ == rename_type(self@, t@),
        decreases t, 1nat,
    {
        match t {
            Type::FieldElement => Type::FieldElement,
            Type::Boolean => Type::Boolean,
            Type::Uint(w) => Type::Uint(*w),
            Type::Array(inner, size) => Type::Array(Box::new(self.ty(&**inner)), self.size(size)),
            Type::Struct(name, members) => {
                let r = Type::Struct(name.clone(), self.members(t, members));
                proof {
                    lemma_struct_view(*t);
                    lemma_struct_view(r);
                    lemma_rename_struct(self@, t@);
                }
                r
            },
        }
    }

    fn members(&self, parent: &Type, members: &Vec<(String, Type)>) -> (r: Vec<(String, Type)>)
        requires
            parent.members() == members@,
        ensures
            views(r@) == rename_members(self@, views(members@)),
        decreases parent, 0nat,
    {
        let mut out: Vec<(String, Type)> = Vec::new();
        let mut i: usize = 0;
        while i < members.len()
            invariant
                i <= members.len(),
                out.len() == i,
                parent.members() == members@,
                forall|j: int|
                    0 <= j < i ==> (#[trigger] out@[j])@ == (
                        members@[j].0@,
                        rename_type(self@, members@[j].1@),
                    ),
            decreases members.len() - i,
        {
            proof {
                lemma_member_decreases(*parent, i as int);
            }
            out.push((members[i].0.clone(), self.ty(&members[i].1)));
            i += 1;
        }
        assert(views(out@) =~= rename_members(self@, views(members@)));
        out
    }

    /// The variable with its identifier and its type renamed.
    pub fn variable(&self, v: &Variable) -> (r: Variable)
        ensures
            r@ == rename_variable(self@, v@),
    {
        Variable { id: self.identifier(&v.id), ty: self.ty(&v.ty) }
    }

    /// The expression with every identifier renamed.
    pub fn expression(&self, e: &Expression) -> (r: Expression)
        ensures
            r@ == rename_expression(self@, e@),
        decreases e, 1nat,
    {
        proof {
            lemma_expression_view(*e);
            lemma_rename_expression(self@, e@);
        }
        let inner = match &e.inner {
            ExpressionInner::Value(v) => ExpressionInner::Value(*v),
            ExpressionInner::Identifier(id) => ExpressionInner::Identifier(self.identifier(id)),
            ExpressionInner::Values(es) => ExpressionInner::Values(self.operands(e, es)),
            ExpressionInner::Operation(op, es) => ExpressionInner::Operation(
                *op,
                self.operands(e, es),
            ),
            ExpressionInner::FunctionCall(key, es) => ExpressionInner::FunctionCall(
                key.duplicate(),
                self.operands(e, es),
            ),
        };
        let r = Expression { ty: self.ty(&e.ty), inner };
        proof {
            lemma_expression_view(r);
        }
        r
    }

    fn operands(&self, parent: &Expression, es: &Vec<Expression>) -> (r: Vec<Expression>)
        requires
            parent.children() == es@,
        ensures
            views(r@) == rename_expressions(self@, views(es@)),
        decreases parent, 0nat,
    {
        let mut out: Vec<Expression> = Vec::new();
        let mut i: usize = 0;
        while i < es.len()
            invariant
                i <= es.len(),
                out.len() == i,
                parent.children() == es@,
                forall|j: int|
                    0 <= j < i ==> (#[trigger] out@[j])@ == rename_expression(self@, es@[j]@),
            decreases es.len() - i,
        {
            proof {
                lemma_child_decreases(*parent, i as int);
            }
            out.push(self.expression(&es[i]));
            i += 1;
        }
        assert(views(out@) =~= rename_expressions(self@, views(es@)));
        out
    }

    /// The expressions of a list, each renamed.
    pub fn expressions(&self, es: &Vec<Expression>) -> (r: Vec<Expression>)
        ensures
            views(r@) == rename_expressions(self@, views(es@)),
    {
        let mut out: Vec<Expression> = Vec::new();
        let mut i: usize = 0;
        while i < es.len()
            invariant
                i <= es.len(),
                out.len() == i,
                forall|j: int|
                    0 <= j < i ==> (#[trigger] out@[j])@ == rename_expression(self@, es@[j]@),
            decreases es.len() - i,
        {
            out.push(self.expression(&es[i]));
            i += 1;
        }
        assert(views(out@) =~= rename_expressions(self@, views(es@)));
        out
    }

    /// The types of a list, each renamed.
    pub fn types(&self, ts: &Vec<Type>) -> (r: Vec<Type>)
        ensures
            views(r@) == rename_types(self@, views(ts@)),
    {
        let mut out: Vec<Type> = Vec::new();
        let mut i: usize = 0;
        while i < ts.len()
            invariant
                i <= ts.len(),
                out.len() == i,
                forall|j: int| 0 <= j < i ==> (#[trigger] out@[j])@ == rename_type(self@, ts@[j]@),
            decreases ts.len() - i,
        {
            out.push(self.ty(&ts[i]));
            i += 1;
        }
        assert(views(out@) =~= rename_types(self@, views(ts@)));
        out
    }

    /// The variables of a list, each renamed.
    pub fn variables(&self, vs: &Vec<Variable>) -> (r: Vec<Variable>)
        ensures
            views(r@) == rename_variables(self@, views(vs@)),
    {
        let mut out: Vec<Variable> = Vec::new();
        let mut i: usize = 0;
        while i < vs.len()
            invariant
                i <= vs.len(),
                out.len() == i,
                forall|j: int|
                    0 <= j < i ==> (#[trigger] out@[j])@ == rename_variable(self@, vs@[j]@),
            decreases vs.len() - i,
        {
            out.push(self.variable(&vs[i]));
            i += 1;
        }
        assert(views(out@) =~= rename_variables(self@, views(vs@)));
        out
    }
}

} // verus!
