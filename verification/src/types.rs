//! Types, signatures and function keys.

use crate::identifier::{Identifier, IdentifierView};
use crate::model::{duplicate_all, equal_all, views, Modelled};
use vstd::prelude::*;

verus! {

/// The width of an unsigned integer type.
#[derive(Debug, PartialEq, Eq, Clone, Copy, Hash, Structural)]
pub enum UBitwidth {
    B8,
    B16,
    B32,
}

/// The operators of the expression language. The reduction treats them alike:
/// an operation is rebuilt from its rewritten operands.
#[derive(Debug, PartialEq, Eq, Clone, Copy, Hash, Structural)]
pub enum Operator {
    Add,
    Sub,
    Mult,
    Div,
    Eq,
    Lt,
    And,
    Or,
    Not,
    IfElse,
    /// The element of an array at an index.
    Select,
    /// The member of a struct at a position.
    Member,
}

/// The length of an array type: a literal, a name (a generic parameter in a
/// declaration, a variable in a body), or arithmetic over these.
#[derive(Debug, PartialEq, Eq)]
pub enum Size {
    Value(u32),
    Identifier(Identifier),
    Operation(Operator, Box<Size>, Box<Size>),
}

/// Mathematical model of a [`Size`].
pub enum SizeView {
    Value(u32),
    Identifier(IdentifierView),
    Operation(Operator, Box<SizeView>, Box<SizeView>),
}

/// The model of a size.
pub open spec fn size_view(s: Size) -> SizeView
    decreases s,
{
    match s {
        Size::Value(n) => SizeView::Value(n),
        Size::Identifier(id) => SizeView::Identifier(id@),
        Size::Operation(op, l, r) => SizeView::Operation(
            op,
            Box::new(size_view(*l)),
            Box::new(size_view(*r)),
        ),
    }
}

impl View for Size {
    type V = SizeView;

    open spec fn view(&self) -> SizeView {
        size_view(*self)
    }
}

fn size_equals(a: &Size, b: &Size) -> (r: bool)
    ensures
        r == (a@ == b@),
    decreases a,
{
    match (a, b) {
        (Size::Value(n), Size::Value(m)) => *n == *m,
        (Size::Identifier(x), Size::Identifier(y)) => x.equals(y),
        (Size::Operation(op, l, r), Size::Operation(op2, l2, r2)) => {
            *op == *op2 && size_equals(&**l, &**l2) && size_equals(&**r, &**r2)
        },
        _ => false,
    }
}

fn size_duplicate(a: &Size) -> (r: Size)
    ensures
        r@ == a@,
    decreases a,
{
    match a {
        Size::Value(n) => Size::Value(*n),
        Size::Identifier(x) => Size::Identifier(x.duplicate()),
        Size::Operation(op, l, r) => Size::Operation(
            *op,
            Box::new(size_duplicate(&**l)),
            Box::new(size_duplicate(&**r)),
        ),
    }
}

impl Modelled for Size {
    fn equals(&self, other: &Size) -> (r: bool) {
        size_equals(self, other)
    }

    fn duplicate(&self) -> (r: Size) {
        size_duplicate(self)
    }
}

/// The type of a variable or of an expression.
#[derive(Debug, PartialEq, Eq)]
pub enum Type {
    FieldElement,
    Boolean,
    Uint(UBitwidth),
    /// An array: the type of its elements, and its length.
    Array(Box<Type>, Size),
    /// A struct: its name, and its members by name, in order.
    Struct(String, Vec<(String, Type)>),
}

/// Mathematical model of a [`Type`].
pub enum TypeView {
    FieldElement,
    Boolean,
    Uint(UBitwidth),
    Array(Box<TypeView>, SizeView),
    Struct(Seq<char>, Seq<(Seq<char>, TypeView)>),
}

/// The model of a type.
pub open spec fn type_view(t: Type) -> TypeView
    decreases t,
{
    match t {
        Type::FieldElement => TypeView::FieldElement,
        Type::Boolean => TypeView::Boolean,
        Type::Uint(w) => TypeView::Uint(w),
        Type::Array(inner, size) => TypeView::Array(Box::new(type_view(*inner)), size@),
        Type::Struct(name, members) => TypeView::Struct(
            name@,
            Seq::new(
                members@.len(),
                |i: int|
                    if 0 <= i < members@.len() {
                        (members@[i].0@, type_view(members@[i].1))
                    } else {
                        arbitrary()
                    },
            ),
        ),
    }
}

impl View for Type {
    type V = TypeView;

    open spec fn view(&self) -> TypeView {
        type_view(*self)
    }
}

impl Type {
    /// The members of a struct type, by name. Another type has none.
    pub open spec fn members(&self) -> Seq<(String, Type)> {
        match *self {
            Type::Struct(_, members) => members@,
            _ => Seq::empty(),
        }
    }
}

/// The model of a struct type has the models of its members as members.
pub proof fn lemma_struct_view(t: Type)
    requires
        t is Struct,
    ensures
        t@ == TypeView::Struct(t->Struct_0@, views(t->Struct_1@)),
{
    assert(t@->Struct_1 =~= views(t->Struct_1@));
}

/// The type of a member is a smaller term than the struct type.
pub proof fn lemma_member_decreases(t: Type, i: int)
    requires
        0 <= i < t.members().len(),
    ensures
        decreases_to!(t => t.members()[i].1),
{
    match t {
        Type::Struct(_, members) => {
            assert(decreases_to!(t => members));
            assert(decreases_to!(members => members[i]));
            assert(decreases_to!(members[i] => members[i].1));
        },
        _ => {},
    }
}

fn type_equals(a: &Type, b: &Type) -> (r: bool)
    ensures
        r == (a@ == b@),
    decreases a, 1nat,
{
    match (a, b) {
        (Type::FieldElement, Type::FieldElement) => true,
        (Type::Boolean, Type::Boolean) => true,
        (Type::Uint(w), Type::Uint(v)) => *w == *v,
        (Type::Array(t, n), Type::Array(u, m)) => type_equals(&**t, &**u) && n.equals(m),
        (Type::Struct(n, ms), Type::Struct(m, ns)) => {
            proof {
                lemma_struct_view(*a);
                lemma_struct_view(*b);
            }
            *n == *m && members_equal(a, ms, ns)
        },
        _ => false,
    }
}

fn members_equal(parent: &Type, a: &Vec<(String, Type)>, b: &Vec<(String, Type)>) -> (r: bool)
    requires
        parent.members() == a@,
    ensures
        r == (views(a@) == views(b@)),
    decreases parent, 0nat,
{
    if a.len() != b.len() {
        assert(views(a@).len() != views(b@).len());
        return false;
    }
    let mut i: usize = 0;
    while i < a.len()
        invariant
            i <= a.len(),
            a.len() == b.len(),
            parent.members() == a@,
            forall|j: int| 0 <= j < i ==> (#[trigger] a@[j])@ == b@[j]@,
        decreases a.len() - i,
    {
        proof {
            lemma_member_decreases(*parent, i as int);
        }
        if !(a[i].0 == b[i].0 && type_equals(&a[i].1, &b[i].1)) {
            assert(views(a@)[i as int] != views(b@)[i as int]);
            return false;
        }
        i += 1;
    }
    assert(views(a@) =~= views(b@));
    true
}

fn type_duplicate(a: &Type) -> (r: Type)
    ensures
        r@ == a@,
    decreases a, 1nat,
{
    match a {
        Type::FieldElement => Type::FieldElement,
        Type::Boolean => Type::Boolean,
        Type::Uint(w) => Type::Uint(*w),
        Type::Array(t, n) => Type::Array(Box::new(type_duplicate(&**t)), n.duplicate()),
        Type::Struct(n, ms) => {
            let r = Type::Struct(n.clone(), members_duplicate(a, ms));
            proof {
                lemma_struct_view(*a);
                lemma_struct_view(r);
            }
            r
        },
    }
}

fn members_duplicate(parent: &Type, a: &Vec<(String, Type)>) -> (r: Vec<(String, Type)>)
    requires
        parent.members() == a@,
    ensures
        views(r@) == views(a@),
    decreases parent, 0nat,
{
    let mut out: Vec<(String, Type)> = Vec::new();
    let mut i: usize = 0;
    while i < a.len()
        invariant
            i <= a.len(),
            out.len() == i,
            parent.members() == a@,
            forall|j: int| 0 <= j < i ==> (#[trigger] out@[j])@ == a@[j]@,
        decreases a.len() - i,
    {
        proof {
            lemma_member_decreases(*parent, i as int);
        }
        out.push((a[i].0.clone(), type_duplicate(&a[i].1)));
        i += 1;
    }
    assert(views(out@) =~= views(a@));
    out
}

impl Modelled for Type {
    fn equals(&self, other: &Type) -> (r: bool) {
        type_equals(self, other)
    }

    fn duplicate(&self) -> (r: Type) {
        type_duplicate(self)
    }
}

/// The input and output types of a function. In a declaration an array length
/// may be the name of a generic parameter; in a concrete signature every
/// length is a literal.
#[derive(Debug, PartialEq, Eq)]
pub struct Signature {
    pub inputs: Vec<Type>,
    pub outputs: Vec<Type>,
}

/// Mathematical model of a [`Signature`].
pub struct SignatureView {
    pub inputs: Seq<TypeView>,
    pub outputs: Seq<TypeView>,
}

impl View for Signature {
    type V = SignatureView;

    open spec fn view(&self) -> SignatureView {
        SignatureView { inputs: views(self.inputs@), outputs: views(self.outputs@) }
    }
}

impl Modelled for Signature {
    fn equals(&self, other: &Signature) -> (r: bool) {
        equal_all(&self.inputs, &other.inputs) && equal_all(&self.outputs, &other.outputs)
    }

    fn duplicate(&self) -> (r: Signature) {
        Signature { inputs: duplicate_all(&self.inputs), outputs: duplicate_all(&self.outputs) }
    }
}

/// The fully qualified name of a function together with its signature.
#[derive(Debug, PartialEq, Eq)]
pub struct FunctionKey {
    pub module: String,
    pub id: String,
    pub signature: Signature,
}

/// Mathematical model of a [`FunctionKey`].
pub struct FunctionKeyView {
    pub module: Seq<char>,
    pub id: Seq<char>,
    pub signature: SignatureView,
}

impl View for FunctionKey {
    type V = FunctionKeyView;

    open spec fn view(&self) -> FunctionKeyView {
        FunctionKeyView { module: self.module@, id: self.id@, signature: self.signature@ }
    }
}

impl Modelled for FunctionKey {
    fn equals(&self, other: &FunctionKey) -> (r: bool) {
        self.module == other.module && self.id == other.id && self.signature.equals(
            &other.signature,
        )
    }

    fn duplicate(&self) -> (r: FunctionKey) {
        FunctionKey {
            module: self.module.clone(),
            id: self.id.clone(),
            signature: self.signature.duplicate(),
        }
    }
}

/// The value given to one generic parameter at a call site.
#[derive(Debug, PartialEq, Eq)]
pub struct GenericBinding {
    pub name: String,
    pub value: u32,
}

impl View for GenericBinding {
    type V = (Seq<char>, u32);

    open spec fn view(&self) -> (Seq<char>, u32) {
        (self.name@, self.value)
    }
}

impl Modelled for GenericBinding {
    fn equals(&self, other: &GenericBinding) -> (r: bool) {
        self.name == other.name && self.value == other.value
    }

    fn duplicate(&self) -> (r: GenericBinding) {
        GenericBinding { name: self.name.clone(), value: self.value }
    }
}

/// The values of the generic parameters of a call, in the order in which the
/// call's types determine them.
#[derive(Debug, PartialEq, Eq)]
pub struct GenericsAssignment(pub Vec<GenericBinding>);

impl View for GenericsAssignment {
    type V = Seq<(Seq<char>, u32)>;

    open spec fn view(&self) -> Seq<(Seq<char>, u32)> {
        views(self.0@)
    }
}

impl Modelled for GenericsAssignment {
    fn equals(&self, other: &GenericsAssignment) -> (r: bool) {
        equal_all(&self.0, &other.0)
    }

    fn duplicate(&self) -> (r: GenericsAssignment) {
        GenericsAssignment(duplicate_all(&self.0))
    }
}

impl Clone for Size {
    fn clone(&self) -> (r: Size)
        ensures
            r@ == self@,
    {
        self.duplicate()
    }
}

impl Clone for Type {
    fn clone(&self) -> (r: Type)
        ensures
            r@ == self@,
    {
        self.duplicate()
    }
}

impl Clone for Signature {
    fn clone(&self) -> (r: Signature)
        ensures
            r@ == self@,
    {
        self.duplicate()
    }
}

impl Clone for FunctionKey {
    fn clone(&self) -> (r: FunctionKey)
        ensures
            r@ == self@,
    {
        self.duplicate()
    }
}

impl Clone for GenericBinding {
    fn clone(&self) -> (r: GenericBinding)
        ensures
            r@ == self@,
    {
        self.duplicate()
    }
}

impl Clone for GenericsAssignment {
    fn clone(&self) -> (r: GenericsAssignment)
        ensures
            r@ == self@,
    {
        self.duplicate()
    }
}

} // verus!
