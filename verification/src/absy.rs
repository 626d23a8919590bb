//! The typed program representation that the reduction works on: expressions,
//! variables, statements, functions, modules and programs.

use crate::identifier::{Identifier, IdentifierView};
use crate::model::{duplicate_all, views, Modelled};
use crate::types::{
    FunctionKey, FunctionKeyView, GenericsAssignment, Operator, Signature, SignatureView, Type,
    TypeView,
};
use vstd::prelude::*;

verus! {

/// An expression together with its static type.
#[derive(Debug, PartialEq, Eq)]
pub struct Expression {
    pub ty: Type,
    pub inner: ExpressionInner,
}

/// The forms of an expression.
#[derive(Debug, PartialEq, Eq)]
pub enum ExpressionInner {
    /// A literal of a scalar type.
    Value(u128),
    /// A read of a variable.
    Identifier(Identifier),
    /// A literal of an array or of a struct: its elements, or its members
    /// in order.
    Values(Vec<Expression>),
    /// An operator applied to operands.
    Operation(Operator, Vec<Expression>),
    /// A call of a function of the program that returns one value.
    FunctionCall(FunctionKey, Vec<Expression>),
}

/// Mathematical model of an [`Expression`].
pub struct ExpressionView {
    pub ty: TypeView,
    pub inner: ExpressionInnerView,
}

/// Mathematical model of an [`ExpressionInner`].
pub enum ExpressionInnerView {
    Value(u128),
    Identifier(IdentifierView),
    Values(Seq<ExpressionView>),
    Operation(Operator, Seq<ExpressionView>),
    FunctionCall(FunctionKeyView, Seq<ExpressionView>),
}

/// The model of an expression: the same form over the models of its parts.
pub open spec fn expression_view(e: Expression) -> ExpressionView
    decreases e,
{
    ExpressionView {
        ty: e.ty@,
        inner: match e.inner {
            ExpressionInner::Value(v) => ExpressionInnerView::Value(v),
            ExpressionInner::Identifier(id) => ExpressionInnerView::Identifier(id@),
            ExpressionInner::Values(es) => ExpressionInnerView::Values(
                Seq::new(
                    es@.len(),
                    |i: int|
                        if 0 <= i < es@.len() {
                            expression_view(es@[i])
                        } else {
                            arbitrary()
                        },
                ),
            ),
            ExpressionInner::Operation(op, es) => ExpressionInnerView::Operation(
                op,
                Seq::new(
                    es@.len(),
                    |i: int|
                        if 0 <= i < es@.len() {
                            expression_view(es@[i])
                        } else {
                            arbitrary()
                        },
                ),
            ),
            ExpressionInner::FunctionCall(key, es) => ExpressionInnerView::FunctionCall(
                key@,
                Seq::new(
                    es@.len(),
                    |i: int|
                        if 0 <= i < es@.len() {
                            expression_view(es@[i])
                        } else {
                            arbitrary()
                        },
                ),
            ),
        },
    }
}

impl View for Expression {
    type V = ExpressionView;

    open spec fn view(&self) -> ExpressionView {
        expression_view(*self)
    }
}

impl Expression {
    /// The operands of the expression: the elements or members of a
    /// literal, the operands of an operation, the arguments of a call.
    pub open spec fn children(&self) -> Seq<Expression> {
        match self.inner {
            ExpressionInner::Values(es) => es@,
            ExpressionInner::Operation(_, es) => es@,
            ExpressionInner::FunctionCall(_, es) => es@,
            _ => Seq::empty(),
        }
    }
}

impl ExpressionView {
    /// The operands of the expression.
    pub open spec fn children(self) -> Seq<ExpressionView> {
        match self.inner {
            ExpressionInnerView::Values(es) => es,
            ExpressionInnerView::Operation(_, es) => es,
            ExpressionInnerView::FunctionCall(_, es) => es,
            _ => Seq::empty(),
        }
    }

    /// The same form of expression over other operands.
    pub open spec fn with_children(self, es: Seq<ExpressionView>) -> ExpressionView {
        ExpressionView {
            ty: self.ty,
            inner: match self.inner {
                ExpressionInnerView::Values(_) => ExpressionInnerView::Values(es),
                ExpressionInnerView::Operation(op, _) => ExpressionInnerView::Operation(op, es),
                ExpressionInnerView::FunctionCall(key, _) => ExpressionInnerView::FunctionCall(
                    key,
                    es,
                ),
                other => other,
            },
        }
    }
}

/// The model of an expression has the models of its operands as operands.
pub proof fn lemma_expression_view(e: Expression)
    ensures
        e@.children() == views(e.children()),
        e@.ty == e.ty@,
        match e.inner {
            ExpressionInner::Value(v) => e@.inner == ExpressionInnerView::Value(v),
            ExpressionInner::Identifier(id) => e@.inner == ExpressionInnerView::Identifier(id@),
            ExpressionInner::Values(es) => e@.inner == ExpressionInnerView::Values(views(es@)),
            ExpressionInner::Operation(op, es) => e@.inner == ExpressionInnerView::Operation(
                op,
                views(es@),
            ),
            ExpressionInner::FunctionCall(key, es) => e@.inner
                == ExpressionInnerView::FunctionCall(key@, views(es@)),
        },
{
    assert(e@.children() =~= views(e.children()));
}

fn expression_equals(a: &Expression, b: &Expression) -> (r: bool)
    ensures
        r == (a@ == b@),
    decreases a, 1nat,
{
    proof {
        lemma_expression_view(*a);
        lemma_expression_view(*b);
    }
    if !a.ty.equals(&b.ty) {
        return false;
    }
    match (&a.inner, &b.inner) {
        (ExpressionInner::Value(v), ExpressionInner::Value(w)) => *v == *w,
        (ExpressionInner::Identifier(x), ExpressionInner::Identifier(y)) => x.equals(y),
        (ExpressionInner::Values(xs), ExpressionInner::Values(ys)) => expressions_equal(a, xs, ys),
        (ExpressionInner::Operation(op, xs), ExpressionInner::Operation(op2, ys)) => *op == *op2
            && expressions_equal(a, xs, ys),
        (ExpressionInner::FunctionCall(k, xs), ExpressionInner::FunctionCall(k2, ys)) => k.equals(
            k2,
        ) && expressions_equal(a, xs, ys),
        _ => false,
    }
}

fn expressions_equal(parent: &Expression, xs: &Vec<Expression>, ys: &Vec<Expression>) -> (r: bool)
    requires
        parent.children() == xs@,
    ensures
        r == (views(xs@) == views(ys@)),
    decreases parent, 0nat,
{
    if xs.len() != ys.len() {
        assert(views(xs@).len() != views(ys@).len());
        return false;
    }
    let mut i: usize = 0;
    while i < xs.len()
        invariant
            i <= xs.len(),
            xs.len() == ys.len(),
            parent.children() == xs@,
            forall|j: int| 0 <= j < i ==> (#[trigger] xs@[j])@ == ys@[j]@,
        decreases xs.len() - i,
    {
        proof {
            lemma_child_decreases(*parent, i as int);
        }
        if !expression_equals(&xs[i], &ys[i]) {
            assert(views(xs@)[i as int] != views(ys@)[i as int]);
            return false;
        }
        i += 1;
    }
    assert(views(xs@) =~= views(ys@));
    true
}

/// An operand is a smaller term than the expression that holds it.
pub proof fn lemma_child_decreases(e: Expression, i: int)
    requires
        0 <= i < e.children().len(),
    ensures
        decreases_to!(e => e.children()[i]),
{
    match e.inner {
        ExpressionInner::Values(es) => {
            assert(decreases_to!(e => e.inner));
            assert(decreases_to!(e.inner => es));
            assert(decreases_to!(es => es[i]));
        },
        ExpressionInner::Operation(_, es) => {
            assert(decreases_to!(e => e.inner));
            assert(decreases_to!(e.inner => es));
            assert(decreases_to!(es => es[i]));
        },
        ExpressionInner::FunctionCall(_, es) => {
            assert(decreases_to!(e => e.inner));
            assert(decreases_to!(e.inner => es));
            assert(decreases_to!(es => es[i]));
        },
        _ => {},
    }
}

fn expression_duplicate(a: &Expression) -> (r: Expression)
    ensures
        r@ == a@,
    decreases a, 1nat,
{
    proof {
        lemma_expression_view(*a);
    }
    let inner = match &a.inner {
        ExpressionInner::Value(v) => ExpressionInner::Value(*v),
        ExpressionInner::Identifier(x) => ExpressionInner::Identifier(x.duplicate()),
        ExpressionInner::Values(xs) => ExpressionInner::Values(expressions_duplicate(a, xs)),
        ExpressionInner::Operation(op, xs) => ExpressionInner::Operation(
            *op,
            expressions_duplicate(a, xs),
        ),
        ExpressionInner::FunctionCall(k, xs) => ExpressionInner::FunctionCall(
            k.duplicate(),
            expressions_duplicate(a, xs),
        ),
    };
    let r = Expression { ty: a.ty.duplicate(), inner };
    proof {
        lemma_expression_view(r);
    }
    r
}

fn expressions_duplicate(parent: &Expression, xs: &Vec<Expression>) -> (r: Vec<Expression>)
    requires
        parent.children() == xs@,
    ensures
        views(r@) == views(xs@),
    decreases parent, 0nat,
{
    let mut out: Vec<Expression> = Vec::new();
    let mut i: usize = 0;
    while i < xs.len()
        invariant
            i <= xs.len(),
            out.len() == i,
            parent.children() == xs@,
            forall|j: int| 0 <= j < i ==> (#[trigger] out@[j])@ == xs@[j]@,
        decreases xs.len() - i,
    {
        proof {
            lemma_child_decreases(*parent, i as int);
        }
        out.push(expression_duplicate(&xs[i]));
        i += 1;
    }
    assert(views(out@) =~= views(xs@));
    out
}

impl Modelled for Expression {
    fn equals(&self, other: &Expression) -> (r: bool) {
        expression_equals(self, other)
    }

    fn duplicate(&self) -> (r: Expression) {
        expression_duplicate(self)
    }
}

/// A typed variable.
#[derive(Debug, PartialEq, Eq)]
pub struct Variable {
    pub id: Identifier,
    pub ty: Type,
}

/// Mathematical model of a [`Variable`].
pub struct VariableView {
    pub id: IdentifierView,
    pub ty: TypeView,
}

impl View for Variable {
    type V = VariableView;

    open spec fn view(&self) -> VariableView {
        VariableView { id: self.id@, ty: self.ty@ }
    }
}

impl Modelled for Variable {
    fn equals(&self, other: &Variable) -> (r: bool) {
        self.id.equals(&other.id) && self.ty.equals(&other.ty)
    }

    fn duplicate(&self) -> (r: Variable) {
        Variable { id: self.id.duplicate(), ty: self.ty.duplicate() }
    }
}

/// A statement of a function body.
#[derive(Debug, PartialEq, Eq)]
pub enum Statement {
    /// Assigns the value of an expression to a variable.
    Definition(Variable, Expression),
    /// Assigns the values that a call returns to variables: the variables,
    /// the function called, its arguments, and the types of what it returns.
    MultipleDefinition(Vec<Variable>, FunctionKey, Vec<Expression>, Vec<Type>),
    /// Returns the values of the expressions.
    Return(Vec<Expression>),
    /// Runs the body once for each value of the variable from the lower
    /// bound up to, and not including, the upper bound.
    For(Variable, Expression, Expression, Vec<Statement>),
    /// Marks the start of the statements of an inlined call.
    PushCallLog(FunctionKey, GenericsAssignment),
    /// Marks the end of the statements of an inlined call.
    PopCallLog,
}

/// Mathematical model of a [`Statement`].
pub enum StatementView {
    Definition(VariableView, ExpressionView),
    MultipleDefinition(Seq<VariableView>, FunctionKeyView, Seq<ExpressionView>, Seq<TypeView>),
    Return(Seq<ExpressionView>),
    For(VariableView, ExpressionView, ExpressionView, Seq<StatementView>),
    PushCallLog(FunctionKeyView, Seq<(Seq<char>, u32)>),
    PopCallLog,
}

/// The model of a statement: the same form over the models of its parts.
pub open spec fn statement_view(s: Statement) -> StatementView
    decreases s,
{
    match s {
        Statement::Definition(v, e) => StatementView::Definition(v@, e@),
        Statement::MultipleDefinition(vs, key, args, types) => StatementView::MultipleDefinition(
            views(vs@),
            key@,
            views(args@),
            views(types@),
        ),
        Statement::Return(es) => StatementView::Return(views(es@)),
        Statement::For(v, from, to, body) => StatementView::For(
            v@,
            from@,
            to@,
            Seq::new(
                body@.len(),
                |i: int|
                    if 0 <= i < body@.len() {
                        statement_view(body@[i])
                    } else {
                        arbitrary()
                    },
            ),
        ),
        Statement::PushCallLog(key, generics) => StatementView::PushCallLog(key@, generics@),
        Statement::PopCallLog => StatementView::PopCallLog,
    }
}

impl View for Statement {
    type V = StatementView;

    open spec fn view(&self) -> StatementView {
        statement_view(*self)
    }
}

/// The model of a loop has the models of its body's statements as body.
pub proof fn lemma_for_view(s: Statement)
    requires
        s is For,
    ensures
        s@ == StatementView::For(s->For_0@, s->For_1@, s->For_2@, views(s->For_3@)),
{
    assert(s@->For_3 =~= views(s->For_3@));
}

impl Statement {
    /// A fresh statement with the same model.
    pub fn duplicate(&self) -> (r: Statement)
        ensures
            r@ == self@,
    {
        statement_duplicate(self)
    }
}

fn statement_duplicate(s: &Statement) -> (r: Statement)
    ensures
        r@ == s@,
    decreases s, 1nat,
{
    match s {
        Statement::Definition(v, e) => Statement::Definition(v.duplicate(), e.duplicate()),
        Statement::MultipleDefinition(vs, key, args, types) => Statement::MultipleDefinition(
            duplicate_all(vs),
            key.duplicate(),
            duplicate_all(args),
            duplicate_all(types),
        ),
        Statement::Return(es) => Statement::Return(duplicate_all(es)),
        Statement::For(v, from, to, body) => {
            let r = Statement::For(
                v.duplicate(),
                from.duplicate(),
                to.duplicate(),
                duplicate_statements(body),
            );
            proof {
                lemma_for_view(*s);
                lemma_for_view(r);
            }
            r
        },
        Statement::PushCallLog(key, generics) => Statement::PushCallLog(
            key.duplicate(),
            generics.duplicate(),
        ),
        Statement::PopCallLog => Statement::PopCallLog,
    }
}

/// A statement-wise copy of a body.
pub fn duplicate_statements(body: &Vec<Statement>) -> (r: Vec<Statement>)
    ensures
        views(r@) == views(body@),
    decreases body, 0nat,
{
    let mut out: Vec<Statement> = Vec::new();
    let mut i: usize = 0;
    while i < body.len()
        invariant
            i <= body.len(),
            out.len() == i,
            forall|j: int| 0 <= j < i ==> (#[trigger] out@[j])@ == body@[j]@,
        decreases body.len() - i,
    {
        assert(decreases_to!(body => body[i as int]));
        out.push(statement_duplicate(&body[i]));
        i += 1;
    }
    assert(views(out@) =~= views(body@));
    out
}

/// A function of the program.
#[derive(Debug, PartialEq, Eq)]
pub struct TypedFunction {
    /// The names of the generic parameters.
    pub generics: Vec<String>,
    /// The parameters.
    pub arguments: Vec<Variable>,
    /// The body.
    pub statements: Vec<Statement>,
    /// The declared signature.
    pub signature: Signature,
}

/// Mathematical model of a [`TypedFunction`].
pub struct FunctionView {
    pub generics: Seq<Seq<char>>,
    pub arguments: Seq<VariableView>,
    pub statements: Seq<StatementView>,
    pub signature: SignatureView,
}

impl View for TypedFunction {
    type V = FunctionView;

    open spec fn view(&self) -> FunctionView {
        FunctionView {
            generics: views(self.generics@),
            arguments: views(self.arguments@),
            statements: views(self.statements@),
            signature: self.signature@,
        }
    }
}

impl TypedFunction {
    /// A fresh function with the same model.
    pub fn duplicate(&self) -> (r: TypedFunction)
        ensures
            r@ == self@,
    {
        TypedFunction {
            generics: duplicate_all(&self.generics),
            arguments: duplicate_all(&self.arguments),
            statements: duplicate_statements(&self.statements),
            signature: self.signature.duplicate(),
        }
    }
}

/// A primitive that later stages turn into constraints directly. Calls to
/// these stay in a reduced function.
#[derive(Debug, PartialEq, Eq, Clone, Copy, Hash, Structural)]
pub enum FlatEmbed {
    /// Decomposes a field element into the given number of bits.
    Unpack(u32),
    U8ToBits,
    U16ToBits,
    U32ToBits,
    U8FromBits,
    U16FromBits,
    U32FromBits,
}

/// What a function key of a module stands for.
#[derive(Debug, PartialEq, Eq)]
pub enum TypedFunctionSymbol {
    /// A function defined in the module.
    Here(TypedFunction),
    /// A primitive.
    Flat(FlatEmbed),
}

/// Mathematical model of a [`TypedFunctionSymbol`].
pub enum SymbolView {
    Here(FunctionView),
    Flat(FlatEmbed),
}

impl View for TypedFunctionSymbol {
    type V = SymbolView;

    open spec fn view(&self) -> SymbolView {
        match *self {
            TypedFunctionSymbol::Here(f) => SymbolView::Here(f@),
            TypedFunctionSymbol::Flat(e) => SymbolView::Flat(e),
        }
    }
}

/// A module: its functions by key. Where a key occurs twice, the last
/// entry counts.
#[derive(Debug, PartialEq, Eq)]
pub struct TypedModule {
    pub functions: Vec<(FunctionKey, TypedFunctionSymbol)>,
}

/// Mathematical model of a [`TypedModule`].
pub struct ModuleView {
    pub functions: Seq<(FunctionKeyView, SymbolView)>,
}

impl View for TypedModule {
    type V = ModuleView;

    open spec fn view(&self) -> ModuleView {
        ModuleView { functions: views(self.functions@) }
    }
}

/// A program: the name of its entry module, and its modules by name. Where
/// a name occurs twice, the last entry counts.
#[derive(Debug, PartialEq, Eq)]
pub struct TypedProgram {
    pub main: String,
    pub modules: Vec<(String, TypedModule)>,
}

/// Mathematical model of a [`TypedProgram`].
pub struct ProgramView {
    pub main: Seq<char>,
    pub modules: Seq<(Seq<char>, ModuleView)>,
}

impl View for TypedProgram {
    type V = ProgramView;

    open spec fn view(&self) -> ProgramView {
        ProgramView { main: self.main@, modules: views(self.modules@) }
    }
}

impl Clone for Expression {
    fn clone(&self) -> (r: Expression)
        ensures
            r@ == self@,
    {
        self.duplicate()
    }
}

impl Clone for Variable {
    fn clone(&self) -> (r: Variable)
        ensures
            r@ == self@,
    {
        self.duplicate()
    }
}

impl Clone for Statement {
    fn clone(&self) -> (r: Statement)
        ensures
            r@ == self@,
    {
        self.duplicate()
    }
}

impl Clone for TypedFunction {
    fn clone(&self) -> (r: TypedFunction)
        ensures
            r@ == self@,
    {
        self.duplicate()
    }
}

impl TypedFunctionSymbol {
    /// A fresh symbol with the same model.
    pub fn duplicate(&self) -> (r: TypedFunctionSymbol)
        ensures
            r@ == self@,
    {
        match self {
            TypedFunctionSymbol::Here(f) => TypedFunctionSymbol::Here(f.duplicate()),
            TypedFunctionSymbol::Flat(e) => TypedFunctionSymbol::Flat(*e),
        }
    }
}

impl Clone for TypedFunctionSymbol {
    fn clone(&self) -> (r: TypedFunctionSymbol)
        ensures
            r@ == self@,
    {
        self.duplicate()
    }
}

impl TypedModule {
    /// A fresh module with the same model.
    pub fn duplicate(&self) -> (r: TypedModule)
        ensures
            r@ == self@,
    {
        let mut functions: Vec<(FunctionKey, TypedFunctionSymbol)> = Vec::new();
        let mut i: usize = 0;
        while i < self.functions.len()
            invariant
                i <= self.functions.len(),
                functions.len() == i,
                forall|j: int| 0 <= j < i ==> (#[trigger] functions@[j])@ == self.functions@[j]@,
            decreases self.functions.len() - i,
        {
            functions.push((self.functions[i].0.duplicate(), self.functions[i].1.duplicate()));
            i += 1;
        }
        assert(views(functions@) =~= views(self.functions@));
        TypedModule { functions }
    }
}

impl Clone for TypedModule {
    fn clone(&self) -> (r: TypedModule)
        ensures
            r@ == self@,
    {
        self.duplicate()
    }
}

impl TypedProgram {
    /// A fresh program with the same model.
    pub fn duplicate(&self) -> (r: TypedProgram)
        ensures
            r@ == self@,
    {
        let mut modules: Vec<(String, TypedModule)> = Vec::new();
        let mut i: usize = 0;
        while i < self.modules.len()
            invariant
                i <= self.modules.len(),
                modules.len() == i,
                forall|j: int| 0 <= j < i ==> (#[trigger] modules@[j])@ == self.modules@[j]@,
            decreases self.modules.len() - i,
        {
            modules.push((self.modules[i].0.clone(), self.modules[i].1.duplicate()));
            i += 1;
        }
        assert(views(modules@) =~= views(self.modules@));
        TypedProgram { main: self.main.clone(), modules }
    }
}

impl Clone for TypedProgram {
    fn clone(&self) -> (r: TypedProgram)
        ensures
            r@ == self@,
    {
        self.duplicate()
    }
}

} // verus!
