//! Matching the declared types of a function against the concrete types of a
//! call, which gives each generic parameter its value.

use crate::identifier::{CoreIdentifier, CoreIdentifierView};
use crate::model::views;
use crate::types::{
    lemma_member_decreases, lemma_struct_view, GenericBinding, Signature, SignatureView, Size,
    SizeView, Type, TypeView,
};
use vstd::prelude::*;

verus! {

/// Mathematical model of an assignment of generic parameters.
pub type AssignmentView = Seq<(Seq<char>, u32)>;

/// Whether every array length in the type is a literal.
pub open spec fn is_concrete(t: TypeView) -> bool
    decreases t,
{
    match t {
        TypeView::Array(inner, size) => size is Value && is_concrete(*inner),
        TypeView::Struct(_, members) => forall|i: int|
            0 <= i < members.len() ==> is_concrete((#[trigger] members[i]).1),
        _ => true,
    }
}

/// Whether every type of the sequence is concrete.
pub open spec fn all_concrete(ts: Seq<TypeView>) -> bool {
    forall|i: int| 0 <= i < ts.len() ==> is_concrete(#[trigger] ts[i])
}

/// The value that an assignment gives to a name, if any.
pub open spec fn generic_value(a: AssignmentView, name: Seq<char>) -> Option<u32>
    decreases a.len(),
{
    if a.len() == 0 {
        None
    } else if a.last().0 == name {
        Some(a.last().1)
    } else {
        generic_value(a.drop_last(), name)
    }
}

/// Matches a declared length against a literal one. A literal has to be
/// equal. A name has to have that value already, or gets it. Anything else
/// does not match.
pub open spec fn unify_size(a: AssignmentView, d: SizeView, n: u32) -> Option<AssignmentView> {
    match d {
        SizeView::Value(m) => if m == n {
            Some(a)
        } else {
            None
        },
        SizeView::Identifier(id) => match id.id {
            CoreIdentifierView::Source(name) => match generic_value(a, name) {
                Some(v) => if v == n {
                    Some(a)
                } else {
                    None
                },
                None => Some(a.push((name, n))),
            },
            CoreIdentifierView::Call(_) => None,
        },
        SizeView::Operation(_, _, _) => None,
    }
}

/// Matches a declared type against a concrete one: the same scalar type,
/// arrays whose element types match and then whose lengths match, or
/// structs of the same name whose members match.
pub open spec fn unify_type(a: AssignmentView, d: TypeView, c: TypeView) -> Option<AssignmentView>
    decreases d,
{
    match (d, c) {
        (TypeView::FieldElement, TypeView::FieldElement) => Some(a),
        (TypeView::Boolean, TypeView::Boolean) => Some(a),
        (TypeView::Uint(w), TypeView::Uint(v)) => if w == v {
            Some(a)
        } else {
            None
        },
        (TypeView::Array(di, ds), TypeView::Array(ci, cs)) => match cs {
            SizeView::Value(n) => match unify_type(a, *di, *ci) {
                None => None,
                Some(a1) => unify_size(a1, ds, n),
            },
            _ => None,
        },
        (TypeView::Struct(n, ds), TypeView::Struct(m, cs)) => if n == m {
            unify_members(a, ds, cs)
        } else {
            None
        },
        _ => None,
    }
}

/// Matches the members of a declared struct against as many of a concrete
/// one with the same names, in order.
pub open spec fn unify_members(
    a: AssignmentView,
    ds: Seq<(Seq<char>, TypeView)>,
    cs: Seq<(Seq<char>, TypeView)>,
) -> Option<AssignmentView>
    decreases ds,
{
    if ds.len() != cs.len() {
        None
    } else if ds.len() == 0 {
        Some(a)
    } else {
        match unify_members(a, ds.drop_last(), cs.drop_last()) {
            None => None,
            Some(a1) => if ds.last().0 == cs.last().0 {
                unify_type(a1, ds.last().1, cs.last().1)
            } else {
                None
            },
        }
    }
}

/// Matches declared types against as many concrete ones, in order.
pub open spec fn unify_types(a: AssignmentView, ds: Seq<TypeView>, cs: Seq<TypeView>) -> Option<
    AssignmentView,
>
    decreases ds.len(),
{
    if ds.len() != cs.len() {
        None
    } else if ds.len() == 0 {
        Some(a)
    } else {
        match unify_types(a, ds.drop_last(), cs.drop_last()) {
            None => None,
            Some(a1) => unify_type(a1, ds.last(), cs.last()),
        }
    }
}

/// The values that a concrete signature gives to the generic parameters of
/// a declared one, in the order in which the inputs and then the outputs
/// determine them. `None` where the two do not match.
pub open spec fn specialize(decl: SignatureView, conc: SignatureView) -> Option<AssignmentView> {
    match unify_types(Seq::empty(), decl.inputs, conc.inputs) {
        None => None,
        Some(a) => unify_types(a, decl.outputs, conc.outputs),
    }
}

impl Type {
    /// Whether every array length in the type is a literal.
    pub fn is_concrete(&self) -> (r: bool)
        ensures
            r == is_concrete(self@),
        decreases self,
    {
        match self {
            Type::Array(inner, size) => match size {
                Size::Value(_) => (**inner).is_concrete(),
                _ => false,
            },
            Type::Struct(_, members) => {
                proof {
                    lemma_struct_view(*self);
                }
                let mut i: usize = 0;
                while i < members.len()
                    invariant
                        i <= members.len(),
                        self.members() == members@,
                        self@ is Struct,
                        self@->Struct_1 == views(members@),
                        forall|j: int| 0 <= j < i ==> is_concrete((#[trigger] views(members@)[j]).1),
                    decreases members.len() - i,
                {
                    proof {
                        lemma_member_decreases(*self, i as int);
                    }
                    if !members[i].1.is_concrete() {
                        assert(!is_concrete(views(members@)[i as int].1));
                        return false;
                    }
                    i += 1;
                }
                true
            },
            _ => true,
        }
    }
}

/// Whether every type of the list is concrete.
pub fn types_are_concrete(ts: &Vec<Type>) -> (r: bool)
    ensures
        r == all_concrete(views(ts@)),
{
    let mut i: usize = 0;
    while i < ts.len()
        invariant
            i <= ts.len(),
            forall|j: int| 0 <= j < i ==> is_concrete(#[trigger] views(ts@)[j]),
        decreases ts.len() - i,
    {
        if !ts[i].is_concrete() {
            assert(!is_concrete(views(ts@)[i as int]));
            return false;
        }
        i += 1;
    }
    true
}

fn value_of(a: &Vec<GenericBinding>, name: &String) -> (r: Option<u32>)
    ensures
        r == generic_value(views(a@), name@),
{
    let ghost all = views(a@);
    let mut i: usize = a.len();
    assert(all.take(i as int) =~= all);
    while i > 0
        invariant
            i <= a.len(),
            all == views(a@),
            generic_value(all, name@) == generic_value(all.take(i as int), name@),
        decreases i,
    {
        proof {
            assert(all.take(i as int).drop_last() =~= all.take(i - 1));
            assert(all.take(i as int).last() == a@[i - 1]@);
        }
        i -= 1;
        if a[i].name == *name {
            return Some(a[i].value);
        }
    }
    None
}

fn match_size(a: Vec<GenericBinding>, d: &Size, n: u32) -> (r: Option<Vec<GenericBinding>>)
    ensures
        match unify_size(views(a@), d@, n) {
            None => r is None,
            Some(b) => r is Some && views(r->0@) == b,
        },
{
    match d {
        Size::Value(m) => if *m == n {
            Some(a)
        } else {
            None
        },
        Size::Identifier(id) => match &id.id {
            CoreIdentifier::Source(name) => match value_of(&a, name) {
                Some(v) => if v == n {
                    Some(a)
                } else {
                    None
                },
                None => {
                    let mut a = a;
                    let ghost before = views(a@);
                    a.push(GenericBinding { name: name.clone(), value: n });
                    assert(views(a@) =~= before.push((name@, n)));
                    Some(a)
                },
            },
            CoreIdentifier::Call(_) => None,
        },
        Size::Operation(_, _, _) => None,
    }
}

fn match_type(a: Vec<GenericBinding>, d: &Type, c: &Type) -> (r: Option<Vec<GenericBinding>>)
    ensures
        match unify_type(views(a@), d@, c@) {
            None => r is None,
            Some(b) => r is Some && views(r->0@) == b,
        },
    decreases d, 1nat,
{
    match (d, c) {
        (Type::FieldElement, Type::FieldElement) => Some(a),
        (Type::Boolean, Type::Boolean) => Some(a),
        (Type::Uint(w), Type::Uint(v)) => if *w == *v {
            Some(a)
        } else {
            None
        },
        (Type::Array(di, ds), Type::Array(ci, cs)) => match cs {
            Size::Value(n) => match match_type(a, &**di, &**ci) {
                None => None,
                Some(a1) => match_size(a1, ds, *n),
            },
            _ => None,
        },
        (Type::Struct(n, ds), Type::Struct(m, cs)) => {
            proof {
                lemma_struct_view(*d);
                lemma_struct_view(*c);
            }
            if *n == *m {
                match_members(a, d, ds, cs)
            } else {
                None
            }
        },
        _ => None,
    }
}

fn match_members(
    a: Vec<GenericBinding>,
    parent: &Type,
    ds: &Vec<(String, Type)>,
    cs: &Vec<(String, Type)>,
) -> (r: Option<Vec<GenericBinding>>)
    requires
        parent.members() == ds@,
    ensures
        match unify_members(views(a@), views(ds@), views(cs@)) {
            None => r is None,
            Some(b) => r is Some && views(r->0@) == b,
        },
    decreases parent, 0nat,
{
    if ds.len() != cs.len() {
        return None;
    }
    let ghost start = views(a@);
    let ghost dv = views(ds@);
    let ghost cv = views(cs@);
    let mut acc = a;
    let mut i: usize = 0;
    assert(dv.take(0) =~= Seq::empty());
    while i < ds.len()
        invariant
            i <= ds.len(),
            ds.len() == cs.len(),
            parent.members() == ds@,
            start == views(a@),
            dv == views(ds@),
            cv == views(cs@),
            unify_members(start, dv.take(i as int), cv.take(i as int)) == Some(views(acc@)),
        decreases ds.len() - i,
    {
        proof {
            assert(dv.take(i + 1).drop_last() =~= dv.take(i as int));
            assert(cv.take(i + 1).drop_last() =~= cv.take(i as int));
            assert(dv.take(i + 1).last() == ds@[i as int]@);
            assert(cv.take(i + 1).last() == cs@[i as int]@);
            lemma_member_decreases(*parent, i as int);
        }
        if !(ds[i].0 == cs[i].0) {
            proof {
                lemma_unify_members_none(start, dv, cv, i + 1);
            }
            return None;
        }
        match match_type(acc, &ds[i].1, &cs[i].1) {
            None => {
                proof {
                    lemma_unify_members_none(start, dv, cv, i + 1);
                }
                return None;
            },
            Some(next) => {
                acc = next;
            },
        }
        i += 1;
    }
    assert(dv.take(ds.len() as int) =~= dv);
    assert(cv.take(cs.len() as int) =~= cv);
    Some(acc)
}

/// Where the first members do not match, neither do all of them.
pub proof fn lemma_unify_members_none(
    a: AssignmentView,
    ds: Seq<(Seq<char>, TypeView)>,
    cs: Seq<(Seq<char>, TypeView)>,
    n: int,
)
    requires
        0 <= n <= ds.len(),
        ds.len() == cs.len(),
        unify_members(a, ds.take(n), cs.take(n)) is None,
    ensures
        unify_members(a, ds, cs) is None,
    decreases ds.len(),
{
    if n < ds.len() {
        assert(ds.drop_last().take(n) =~= ds.take(n));
        assert(cs.drop_last().take(n) =~= cs.take(n));
        lemma_unify_members_none(a, ds.drop_last(), cs.drop_last(), n);
    } else {
        assert(ds.take(n) =~= ds);
        assert(cs.take(n) =~= cs);
    }
}

fn match_types(a: Vec<GenericBinding>, ds: &Vec<Type>, cs: &Vec<Type>) -> (r: Option<
    Vec<GenericBinding>,
>)
    ensures
        match unify_types(views(a@), views(ds@), views(cs@)) {
            None => r is None,
            Some(b) => r is Some && views(r->0@) == b,
        },
{
    if ds.len() != cs.len() {
        return None;
    }
    let ghost start = views(a@);
    let ghost dv = views(ds@);
    let ghost cv = views(cs@);
    let mut acc = a;
    let mut i: usize = 0;
    assert(dv.take(0) =~= Seq::empty());
    while i < ds.len()
        invariant
            i <= ds.len(),
            ds.len() == cs.len(),
            start == views(a@),
            dv == views(ds@),
            cv == views(cs@),
            unify_types(start, dv.take(i as int), cv.take(i as int)) == Some(views(acc@)),
        decreases ds.len() - i,
    {
        proof {
            assert(dv.take(i + 1).drop_last() =~= dv.take(i as int));
            assert(cv.take(i + 1).drop_last() =~= cv.take(i as int));
            assert(dv.take(i + 1).last() == ds@[i as int]@);
            assert(cv.take(i + 1).last() == cs@[i as int]@);
        }
        match match_type(acc, &ds[i], &cs[i]) {
            None => {
                proof {
                    lemma_unify_types_none(start, dv, cv, i + 1);
                }
                return None;
            },
            Some(next) => {
                acc = next;
            },
        }
        i += 1;
    }
    assert(dv.take(ds.len() as int) =~= dv);
    assert(cv.take(cs.len() as int) =~= cv);
    Some(acc)
}

/// Where the first types do not match, neither do all of them.
pub proof fn lemma_unify_types_none(a: AssignmentView, ds: Seq<TypeView>, cs: Seq<TypeView>, n: int)
    requires
        0 <= n <= ds.len(),
        ds.len() == cs.len(),
        unify_types(a, ds.take(n), cs.take(n)) is None,
    ensures
        unify_types(a, ds, cs) is None,
    decreases ds.len(),
{
    if n < ds.len() {
        assert(ds.drop_last().take(n) =~= ds.take(n));
        assert(cs.drop_last().take(n) =~= cs.take(n));
        lemma_unify_types_none(a, ds.drop_last(), cs.drop_last(), n);
    } else {
        assert(ds.take(n) =~= ds);
        assert(cs.take(n) =~= cs);
    }
}

impl Signature {
    /// The values that a concrete signature gives to the generic parameters
    /// of this one, if the two match.
    pub fn specialize(&self, concrete: &Signature) -> (r: Option<Vec<GenericBinding>>)
        ensures
            match specialize(self@, concrete@) {
                None => r is None,
                Some(a) => r is Some && views(r->0@) == a,
            },
    {
        let start: Vec<GenericBinding> = Vec::new();
        assert(views(start@) =~= Seq::empty());
        match match_types(start, &self.inputs, &concrete.inputs) {
            None => None,
            Some(a) => match_types(a, &self.outputs, &concrete.outputs),
        }
    }
}

} // verus!
