use reducer::absy::{
    Expression, ExpressionInner, Statement, TypedFunction, TypedFunctionSymbol, TypedModule,
    TypedProgram, Variable,
};
use reducer::embed::embeds_in_module;
use reducer::identifier::{CoreIdentifier, Identifier};
use reducer::model::Modelled;
use reducer::types::{
    FunctionKey, GenericBinding, GenericsAssignment, Operator, Signature, Size, Type, UBitwidth,
};
use reducer::{reduce_program, Error};

const FIELD_BITS: u32 = 254;
const PASSES: usize = 16;

fn id(name: &str) -> Identifier {
    Identifier::from_name(name)
}

fn idv(name: &str, version: usize) -> Identifier {
    Identifier::from_name(name).version(version)
}

fn slot(index: usize, version: usize) -> Identifier {
    Identifier { id: CoreIdentifier::Call(index), version }
}

fn field() -> Type {
    Type::FieldElement
}

fn uint32() -> Type {
    Type::Uint(UBitwidth::B32)
}

fn field_array(size: Size) -> Type {
    Type::Array(Box::new(Type::FieldElement), size)
}

fn generic(name: &str) -> Size {
    Size::Identifier(id(name))
}

fn n_minus_one(n: Identifier) -> Size {
    Size::Operation(Operator::Sub, Box::new(Size::Identifier(n)), Box::new(Size::Value(1)))
}

fn var(id: Identifier, ty: Type) -> Variable {
    Variable { id, ty }
}

fn read(id: Identifier, ty: Type) -> Expression {
    Expression { ty, inner: ExpressionInner::Identifier(id) }
}

fn uint(value: u128) -> Expression {
    Expression { ty: uint32(), inner: ExpressionInner::Value(value) }
}

fn number(value: u128) -> Expression {
    Expression { ty: field(), inner: ExpressionInner::Value(value) }
}

fn field_array_value(elements: Vec<Expression>, size: u32) -> Expression {
    Expression { ty: field_array(Size::Value(size)), inner: ExpressionInner::Values(elements) }
}

fn key(id: &str, inputs: Vec<Type>, outputs: Vec<Type>) -> FunctionKey {
    FunctionKey {
        module: "main".to_string(),
        id: id.to_string(),
        signature: Signature { inputs, outputs },
    }
}

fn field_to_field(id: &str) -> FunctionKey {
    key(id, vec![field()], vec![field()])
}

fn generic_foo_signature() -> Signature {
    Signature {
        inputs: vec![field_array(generic("K"))],
        outputs: vec![field_array(generic("K"))],
    }
}

fn generic_foo_key() -> FunctionKey {
    FunctionKey {
        module: "main".to_string(),
        id: "foo".to_string(),
        signature: generic_foo_signature(),
    }
}

fn generic_foo() -> TypedFunction {
    TypedFunction {
        generics: vec!["K".to_string()],
        arguments: vec![var(id("a"), field_array(generic("K")))],
        statements: vec![Statement::Return(vec![read(id("a"), field_array(Size::Value(1)))])],
        signature: generic_foo_signature(),
    }
}

fn program(functions: Vec<(FunctionKey, TypedFunctionSymbol)>) -> TypedProgram {
    TypedProgram {
        main: "main".to_string(),
        modules: vec![("main".to_string(), TypedModule { functions })],
    }
}

fn reduced(main_key: FunctionKey, main: TypedFunction) -> TypedProgram {
    let mut functions = vec![(main_key, TypedFunctionSymbol::Here(main))];
    functions.extend(embeds_in_module(&"main".to_string(), FIELD_BITS));
    program(functions)
}

fn identity(f: TypedFunction) -> TypedFunction {
    f
}

// A small constant propagation, as much as the scenarios below need: a
// variable that is defined as a literal is replaced by it where it is read,
// in expressions and in array lengths, and a subtraction of two literals is
// computed.
struct Constants(Vec<(Identifier, Expression)>);

impl Constants {
    fn get(&self, id: &Identifier) -> Option<&Expression> {
        self.0.iter().find(|(k, _)| k == id).map(|(_, e)| e)
    }

    fn size(&self, s: &Size) -> Size {
        match s {
            Size::Value(n) => Size::Value(*n),
            Size::Identifier(id) => match self.get(id).map(|e| &e.inner) {
                Some(ExpressionInner::Value(v)) => Size::Value(*v as u32),
                _ => Size::Identifier(id.duplicate()),
            },
            Size::Operation(op, a, b) => match (op, self.size(a), self.size(b)) {
                (Operator::Sub, Size::Value(x), Size::Value(y)) => Size::Value(x - y),
                (op, a, b) => Size::Operation(*op, Box::new(a), Box::new(b)),
            },
        }
    }

    fn ty(&self, t: &Type) -> Type {
        match t {
            Type::Array(inner, size) => Type::Array(Box::new(self.ty(inner)), self.size(size)),
            other => other.duplicate(),
        }
    }

    fn variable(&self, v: &Variable) -> Variable {
        Variable { id: v.id.duplicate(), ty: self.ty(&v.ty) }
    }

    fn expression(&self, e: &Expression) -> Expression {
        let ty = self.ty(&e.ty);
        match &e.inner {
            ExpressionInner::Value(v) => Expression { ty, inner: ExpressionInner::Value(*v) },
            ExpressionInner::Identifier(id) => match self.get(id) {
                Some(constant) => constant.duplicate(),
                None => Expression { ty, inner: ExpressionInner::Identifier(id.duplicate()) },
            },
            ExpressionInner::Values(es) => {
                Expression { ty, inner: ExpressionInner::Values(self.expressions(es)) }
            }
            ExpressionInner::Operation(op, es) => {
                let es = self.expressions(es);
                match (op, es.as_slice()) {
                    (
                        Operator::Sub,
                        [Expression { inner: ExpressionInner::Value(x), .. }, Expression { inner: ExpressionInner::Value(y), .. }],
                    ) => Expression { ty, inner: ExpressionInner::Value(x - y) },
                    _ => Expression { ty, inner: ExpressionInner::Operation(*op, es) },
                }
            }
            ExpressionInner::FunctionCall(key, es) => Expression {
                ty,
                inner: ExpressionInner::FunctionCall(key.duplicate(), self.expressions(es)),
            },
        }
    }

    fn expressions(&self, es: &[Expression]) -> Vec<Expression> {
        es.iter().map(|e| self.expression(e)).collect()
    }

    fn is_constant(e: &Expression) -> bool {
        match &e.inner {
            ExpressionInner::Value(_) => true,
            ExpressionInner::Values(es) => es.iter().all(Self::is_constant),
            _ => false,
        }
    }
}

fn propagate(f: TypedFunction) -> TypedFunction {
    let mut constants = Constants(vec![]);
    let mut statements = vec![];
    for s in &f.statements {
        statements.push(match s {
            Statement::Definition(v, e) => {
                let e = constants.expression(e);
                let v = constants.variable(v);
                if Constants::is_constant(&e) {
                    constants.0.push((v.id.duplicate(), e.duplicate()));
                }
                Statement::Definition(v, e)
            }
            Statement::MultipleDefinition(vs, key, args, types) => Statement::MultipleDefinition(
                vs.iter().map(|v| constants.variable(v)).collect(),
                key.duplicate(),
                constants.expressions(args),
                types.iter().map(|t| constants.ty(t)).collect(),
            ),
            Statement::Return(es) => Statement::Return(constants.expressions(es)),
            other => other.duplicate(),
        });
    }
    TypedFunction { statements, ..f }
}

#[test]
fn no_generics() {
    // def foo(field a) -> field:
    //      return a
    // def main(field a) -> field:
    //      u32 n = 42
    //      n = n
    //      a = a
    //      a = foo(a)
    //      n = n
    //      return a
    let foo = TypedFunction {
        generics: vec![],
        arguments: vec![var(id("a"), field())],
        statements: vec![Statement::Return(vec![read(id("a"), field())])],
        signature: Signature { inputs: vec![field()], outputs: vec![field()] },
    };

    let main = TypedFunction {
        generics: vec![],
        arguments: vec![var(id("a"), field())],
        statements: vec![
            Statement::Definition(var(id("n"), uint32()), uint(42)),
            Statement::Definition(var(id("n"), uint32()), read(id("n"), uint32())),
            Statement::Definition(var(id("a"), field()), read(id("a"), field())),
            Statement::MultipleDefinition(
                vec![var(id("a"), field())],
                field_to_field("foo"),
                vec![read(id("a"), field())],
                vec![field()],
            ),
            Statement::Definition(var(id("n"), uint32()), read(id("n"), uint32())),
            Statement::Return(vec![read(id("a"), field())]),
        ],
        signature: Signature { inputs: vec![field()], outputs: vec![field()] },
    };

    let p = program(vec![
        (field_to_field("foo"), TypedFunctionSymbol::Here(foo)),
        (field_to_field("main"), TypedFunctionSymbol::Here(main)),
    ]);

    let reduced_program = reduce_program(p, FIELD_BITS, &identity, PASSES);

    // def main(field a_0) -> field:
    //      u32 n_0 = 42
    //      n_1 = n_0
    //      a_1 = a_0
    //      # PUSH CALL to foo
    //          a_3 := a_1 // input binding
    //          #RETURN_AT_INDEX_0_0 := a_3
    //      # POP CALL
    //      a_2 = #RETURN_AT_INDEX_0_0
    //      n_2 = n_1
    //      return a_2
    let expected_main = TypedFunction {
        generics: vec![],
        arguments: vec![var(id("a"), field())],
        statements: vec![
            Statement::Definition(var(id("n"), uint32()), uint(42)),
            Statement::Definition(var(idv("n", 1), uint32()), read(id("n"), uint32())),
            Statement::Definition(var(idv("a", 1), field()), read(id("a"), field())),
            Statement::PushCallLog(field_to_field("foo"), GenericsAssignment(vec![])),
            Statement::Definition(var(idv("a", 3), field()), read(idv("a", 1), field())),
            Statement::Definition(var(slot(0, 0), field()), read(idv("a", 3), field())),
            Statement::PopCallLog,
            Statement::Definition(var(idv("a", 2), field()), read(slot(0, 0), field())),
            Statement::Definition(var(idv("n", 2), uint32()), read(idv("n", 1), uint32())),
            Statement::Return(vec![read(idv("a", 2), field())]),
        ],
        signature: Signature { inputs: vec![field()], outputs: vec![field()] },
    };

    let expected = reduced(field_to_field("main"), expected_main);

    assert_eq!(reduced_program.unwrap(), expected);
}

fn main_with_generic_call(n: u128, length: fn() -> Size) -> TypedFunction {
    TypedFunction {
        generics: vec![],
        arguments: vec![var(id("a"), field())],
        statements: vec![
            Statement::Definition(var(id("n"), uint32()), uint(n)),
            Statement::Definition(var(id("n"), uint32()), read(id("n"), uint32())),
            Statement::Definition(
                var(id("b"), field_array(length())),
                field_array_value(vec![number(1)], 1),
            ),
            Statement::MultipleDefinition(
                vec![var(id("b"), field_array(length()))],
                generic_foo_key(),
                vec![read(id("b"), field_array(length()))],
                vec![field_array(length())],
            ),
            Statement::Definition(var(id("n"), uint32()), read(id("n"), uint32())),
            Statement::Return(vec![read(id("a"), field())]),
        ],
        signature: Signature { inputs: vec![field()], outputs: vec![field()] },
    }
}

fn one() -> Size {
    Size::Value(1)
}

#[test]
fn with_generics() {
    // def foo<K>(field[K] a) -> field[K]:
    //      return a
    // def main(field a) -> field:
    //      u32 n = 42
    //      n = n
    //      field[1] b = [1]
    //      b = foo(b)
    //      n = n
    //      return a
    let p = program(vec![
        (generic_foo_key(), TypedFunctionSymbol::Here(generic_foo())),
        (
            field_to_field("main"),
            TypedFunctionSymbol::Here(main_with_generic_call(42, one)),
        ),
    ]);

    let reduced_program = reduce_program(p, FIELD_BITS, &identity, PASSES);

    // def main(field a_0) -> field:
    //      u32 n_0 = 42
    //      n_1 = n_0
    //      field[1] b_0 = [1]
    //      # PUSH CALL to foo::<1>
    //          a_1 = b_0
    //          K_0 = 1
    //          #RETURN_AT_INDEX_0_0 := a_1
    //      # POP CALL
    //      b_1 = #RETURN_AT_INDEX_0_0
    //      n_2 = n_1
    //      return a_0
    let expected_main = TypedFunction {
        generics: vec![],
        arguments: vec![var(id("a"), field())],
        statements: vec![
            Statement::Definition(var(id("n"), uint32()), uint(42)),
            Statement::Definition(var(idv("n", 1), uint32()), read(id("n"), uint32())),
            Statement::Definition(
                var(id("b"), field_array(one())),
                field_array_value(vec![number(1)], 1),
            ),
            Statement::PushCallLog(
                generic_foo_key(),
                GenericsAssignment(vec![GenericBinding { name: "K".to_string(), value: 1 }]),
            ),
            Statement::Definition(
                var(idv("a", 1), field_array(one())),
                read(id("b"), field_array(one())),
            ),
            Statement::Definition(var(id("K"), uint32()), uint(1)),
            Statement::Definition(
                var(slot(0, 0), field_array(one())),
                read(idv("a", 1), field_array(one())),
            ),
            Statement::PopCallLog,
            Statement::Definition(
                var(idv("b", 1), field_array(one())),
                read(slot(0, 0), field_array(one())),
            ),
            Statement::Definition(var(idv("n", 2), uint32()), read(idv("n", 1), uint32())),
            Statement::Return(vec![read(id("a"), field())]),
        ],
        signature: Signature { inputs: vec![field()], outputs: vec![field()] },
    };

    let expected = reduced(field_to_field("main"), expected_main);

    assert_eq!(reduced_program.unwrap(), expected);
}

fn n_minus_one_unversioned() -> Size {
    n_minus_one(id("n"))
}

#[test]
fn with_generics_and_propagation() {
    // def foo<K>(field[K] a) -> field[K]:
    //      return a
    // def main(field a) -> field:
    //      u32 n = 2
    //      n = n
    //      field[n - 1] b = [1]
    //      b = foo(b)
    //      n = n
    //      return a
    let p = program(vec![
        (generic_foo_key(), TypedFunctionSymbol::Here(generic_foo())),
        (
            field_to_field("main"),
            TypedFunctionSymbol::Here(main_with_generic_call(2, n_minus_one_unversioned)),
        ),
    ]);

    let reduced_program = reduce_program(p, FIELD_BITS, &propagate, PASSES);

    // def main(field a_0) -> field:
    //      u32 n_0 = 2
    //      n_1 = 2
    //      field[1] b_0 = [1]
    //      # PUSH CALL to foo::<1>
    //          a_1 = [1]
    //          K_0 = 1
    //          #RETURN_AT_INDEX_0_0 = a_1
    //      # POP CALL
    //      b_1 = #RETURN_AT_INDEX_0_0
    //      n_2 = 2
    //      return a_0
    let expected_main = TypedFunction {
        generics: vec![],
        arguments: vec![var(id("a"), field())],
        statements: vec![
            Statement::Definition(var(id("n"), uint32()), uint(2)),
            Statement::Definition(var(idv("n", 1), uint32()), uint(2)),
            Statement::Definition(
                var(id("b"), field_array(one())),
                field_array_value(vec![number(1)], 1),
            ),
            Statement::PushCallLog(
                generic_foo_key(),
                GenericsAssignment(vec![GenericBinding { name: "K".to_string(), value: 1 }]),
            ),
            Statement::Definition(
                var(idv("a", 1), field_array(one())),
                field_array_value(vec![number(1)], 1),
            ),
            Statement::Definition(var(id("K"), uint32()), uint(1)),
            Statement::Definition(
                var(slot(0, 0), field_array(one())),
                read(idv("a", 1), field_array(one())),
            ),
            Statement::PopCallLog,
            Statement::Definition(
                var(idv("b", 1), field_array(one())),
                read(slot(0, 0), field_array(one())),
            ),
            Statement::Definition(var(idv("n", 2), uint32()), uint(2)),
            Statement::Return(vec![read(id("a"), field())]),
        ],
        signature: Signature { inputs: vec![field()], outputs: vec![field()] },
    };

    let expected = reduced(field_to_field("main"), expected_main);

    assert_eq!(reduced_program.unwrap(), expected);
}

#[test]
fn incompatible() {
    // def foo<K>(field[K] a) -> field[K]:
    //      return a
    // def main():
    //      field[1] b = foo([])
    //      return
    let main = TypedFunction {
        generics: vec![],
        arguments: vec![],
        statements: vec![
            Statement::MultipleDefinition(
                vec![var(id("b"), field_array(one()))],
                generic_foo_key(),
                vec![field_array_value(vec![], 0)],
                vec![field_array(one())],
            ),
            Statement::Return(vec![]),
        ],
        signature: Signature { inputs: vec![], outputs: vec![] },
    };

    let p = program(vec![
        (generic_foo_key(), TypedFunctionSymbol::Here(generic_foo())),
        (key("main", vec![], vec![]), TypedFunctionSymbol::Here(main)),
    ]);

    let reduced_program = reduce_program(p, FIELD_BITS, &identity, PASSES);

    assert_eq!(
        reduced_program,
        Err(Error::Incompatible(
            generic_foo_key().to_string(),
            key(
                "foo",
                vec![field_array(Size::Value(0))],
                vec![field_array(Size::Value(1))]
            )
            .to_string()
        ))
    );
}

#[test]
fn incompatible_call_is_reported_with_both_keys_as_text() {
    let main = TypedFunction {
        generics: vec![],
        arguments: vec![],
        statements: vec![
            Statement::MultipleDefinition(
                vec![var(id("b"), field_array(one()))],
                generic_foo_key(),
                vec![field_array_value(vec![], 0)],
                vec![field_array(one())],
            ),
            Statement::Return(vec![]),
        ],
        signature: Signature { inputs: vec![], outputs: vec![] },
    };
    let p = program(vec![
        (generic_foo_key(), TypedFunctionSymbol::Here(generic_foo())),
        (key("main", vec![], vec![]), TypedFunctionSymbol::Here(main)),
    ]);

    assert_eq!(
        reduce_program(p, FIELD_BITS, &identity, PASSES),
        Err(Error::Incompatible(
            "main/foo<K>: field[K] -> field[K]".to_string(),
            "main/foo: field[0] -> field[1]".to_string()
        ))
    );
}

#[test]
fn generics_in_main_are_rejected() {
    let main = TypedFunction {
        generics: vec!["K".to_string()],
        arguments: vec![var(id("a"), field_array(generic("K")))],
        statements: vec![Statement::Return(vec![read(id("a"), field_array(generic("K")))])],
        signature: generic_foo_signature(),
    };
    let main_key = FunctionKey {
        module: "main".to_string(),
        id: "main".to_string(),
        signature: generic_foo_signature(),
    };
    let p = program(vec![(main_key, TypedFunctionSymbol::Here(main))]);

    assert_eq!(reduce_program(p, FIELD_BITS, &identity, PASSES), Err(Error::GenericsInMain));
}

fn sum_loop(to: Expression) -> TypedFunction {
    // def main() -> u32:
    //      u32 s = 0
    //      for u32 i in 0..to do
    //          s = s + i
    //      endfor
    //      return s
    TypedFunction {
        generics: vec![],
        arguments: vec![],
        statements: vec![
            Statement::Definition(var(id("s"), uint32()), uint(0)),
            Statement::For(
                var(id("i"), uint32()),
                uint(0),
                to,
                vec![Statement::Definition(
                    var(id("s"), uint32()),
                    Expression {
                        ty: uint32(),
                        inner: ExpressionInner::Operation(
                            Operator::Add,
                            vec![read(id("s"), uint32()), read(id("i"), uint32())],
                        ),
                    },
                )],
            ),
            Statement::Return(vec![read(id("s"), uint32())]),
        ],
        signature: Signature { inputs: vec![], outputs: vec![uint32()] },
    }
}

fn round(index: usize, from: usize, to: usize) -> Vec<Statement> {
    vec![
        Statement::Definition(var(idv("i", index), uint32()), uint(index as u128)),
        Statement::Definition(
            var(idv("s", to), uint32()),
            Expression {
                ty: uint32(),
                inner: ExpressionInner::Operation(
                    Operator::Add,
                    vec![read(idv("s", from), uint32()), read(idv("i", index), uint32())],
                ),
            },
        ),
    ]
}

#[test]
fn loop_is_unrolled_from_a_fresh_floor() {
    let main_key = || key("main", vec![], vec![uint32()]);
    let p = program(vec![(main_key(), TypedFunctionSymbol::Here(sum_loop(uint(3))))]);

    let reduced_program = reduce_program(p, FIELD_BITS, &identity, PASSES);

    // the loop reserves versions 1 and 2 of `s` and is unrolled from version
    // 3, which stands for `s_0`; the reader after the loop, at version 2,
    // gets the last version of the loop
    let mut statements = vec![Statement::Definition(var(id("s"), uint32()), uint(0))];
    statements.extend(round(0, 0, 4));
    statements.extend(round(1, 4, 5));
    statements.extend(round(2, 5, 6));
    statements.push(Statement::Return(vec![read(idv("s", 6), uint32())]));
    let expected_main = TypedFunction {
        generics: vec![],
        arguments: vec![],
        statements,
        signature: Signature { inputs: vec![], outputs: vec![uint32()] },
    };

    assert_eq!(reduced_program.unwrap(), reduced(main_key(), expected_main));
}

#[test]
fn loop_without_rounds_leaves_the_reader_at_the_version_before_it() {
    let main_key = || key("main", vec![], vec![uint32()]);
    let p = program(vec![(main_key(), TypedFunctionSymbol::Here(sum_loop(uint(0))))]);

    let reduced_program = reduce_program(p, FIELD_BITS, &identity, PASSES);

    let expected_main = TypedFunction {
        generics: vec![],
        arguments: vec![],
        statements: vec![
            Statement::Definition(var(id("s"), uint32()), uint(0)),
            Statement::Return(vec![read(id("s"), uint32())]),
        ],
        signature: Signature { inputs: vec![], outputs: vec![uint32()] },
    };

    assert_eq!(reduced_program.unwrap(), reduced(main_key(), expected_main));
}

#[test]
fn loop_with_unknown_bound_exhausts_the_passes() {
    let main = TypedFunction {
        arguments: vec![var(id("n"), uint32())],
        signature: Signature { inputs: vec![uint32()], outputs: vec![uint32()] },
        ..sum_loop(read(id("n"), uint32()))
    };
    let p = program(vec![(
        key("main", vec![uint32()], vec![uint32()]),
        TypedFunctionSymbol::Here(main),
    )]);

    assert_eq!(reduce_program(p, FIELD_BITS, &identity, PASSES), Err(Error::Exhausted));
}

#[test]
fn no_pass_allowed_exhausts_at_once() {
    let p = program(vec![(
        key("main", vec![], vec![uint32()]),
        TypedFunctionSymbol::Here(sum_loop(uint(3))),
    )]);

    assert_eq!(reduce_program(p, FIELD_BITS, &identity, 0), Err(Error::Exhausted));
}

#[test]
fn function_without_loops_and_calls_needs_no_pass() {
    let main = || TypedFunction {
        generics: vec![],
        arguments: vec![var(id("a"), field())],
        statements: vec![
            Statement::Definition(var(id("a"), field()), read(id("a"), field())),
            Statement::Return(vec![read(id("a"), field())]),
        ],
        signature: Signature { inputs: vec![field()], outputs: vec![field()] },
    };
    let p = program(vec![(field_to_field("main"), TypedFunctionSymbol::Here(main()))]);

    let expected_main = TypedFunction {
        statements: vec![
            Statement::Definition(var(idv("a", 1), field()), read(id("a"), field())),
            Statement::Return(vec![read(idv("a", 1), field())]),
        ],
        ..main()
    };

    assert_eq!(
        reduce_program(p, FIELD_BITS, &identity, 0).unwrap(),
        reduced(field_to_field("main"), expected_main)
    );
}

#[test]
fn reducing_twice_gives_the_same_program() {
    let main = || TypedFunction {
        generics: vec![],
        arguments: vec![var(id("a"), field())],
        statements: vec![
            Statement::Definition(var(id("n"), uint32()), uint(42)),
            Statement::Definition(var(id("a"), field()), read(id("a"), field())),
            Statement::Definition(var(id("n"), uint32()), read(id("n"), uint32())),
            Statement::Return(vec![read(id("a"), field())]),
        ],
        signature: Signature { inputs: vec![field()], outputs: vec![field()] },
    };
    let once = reduce_program(
        program(vec![(field_to_field("main"), TypedFunctionSymbol::Here(main()))]),
        FIELD_BITS,
        &identity,
        PASSES,
    )
    .unwrap();
    let again = reduce_program(
        program(vec![(field_to_field("main"), TypedFunctionSymbol::Here(main()))]),
        FIELD_BITS,
        &identity,
        PASSES,
    )
    .unwrap();
    assert_eq!(once, again);

    let twice = reduce_program(once, FIELD_BITS, &identity, PASSES).unwrap();
    assert_eq!(twice, again);
}

#[test]
fn call_of_a_primitive_stays() {
    let bits = || Type::Array(Box::new(Type::Boolean), Size::Value(32));
    let to_bits = || reducer::absy::FlatEmbed::U32ToBits.key_in_module(&"main".to_string());
    let main = |call_key: FunctionKey, version: usize| TypedFunction {
        generics: vec![],
        arguments: vec![var(id("a"), uint32())],
        statements: vec![
            Statement::MultipleDefinition(
                vec![var(idv("b", version), bits())],
                call_key,
                vec![read(id("a"), uint32())],
                vec![bits()],
            ),
            Statement::Return(vec![read(idv("b", version), bits())]),
        ],
        signature: Signature { inputs: vec![uint32()], outputs: vec![bits()] },
    };
    let main_key = || key("main", vec![uint32()], vec![bits()]);
    let p = program(vec![(main_key(), TypedFunctionSymbol::Here(main(to_bits(), 0)))]);

    assert_eq!(
        reduce_program(p, FIELD_BITS, &identity, PASSES).unwrap(),
        reduced(main_key(), main(to_bits(), 0))
    );
}
