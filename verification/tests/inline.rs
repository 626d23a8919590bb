use reducer::absy::{
    Expression, ExpressionInner, FlatEmbed, Statement, TypedFunction, TypedFunctionSymbol,
    TypedModule, TypedProgram, Variable,
};
use reducer::identifier::{CoreIdentifier, Identifier};
use reducer::inline::{inline_call, CallCache, InlineError};
use reducer::types::{
    FunctionKey, GenericBinding, GenericsAssignment, Operator, Signature, Size, Type, UBitwidth,
};
use reducer::versions::Versions;
use reducer::Output;

fn source(name: &str) -> CoreIdentifier {
    CoreIdentifier::Source(name.to_string())
}

fn id(name: &str) -> Identifier {
    Identifier::from_name(name)
}

fn idv(name: &str, version: usize) -> Identifier {
    Identifier::from_name(name).version(version)
}

fn slot(index: usize, version: usize) -> Identifier {
    Identifier { id: CoreIdentifier::Call(index), version }
}

fn uint32() -> Type {
    Type::Uint(UBitwidth::B32)
}

fn field_array(size: Size) -> Type {
    Type::Array(Box::new(Type::FieldElement), size)
}

fn var(id: Identifier, ty: Type) -> Variable {
    Variable { id, ty }
}

fn read(id: Identifier, ty: Type) -> Expression {
    Expression { ty, inner: ExpressionInner::Identifier(id) }
}

fn uint(value: u128) -> Expression {
    Expression { ty: uint32(), inner: ExpressionInner::Value(value) }
}

fn key(id: &str, inputs: Vec<Type>, outputs: Vec<Type>) -> FunctionKey {
    FunctionKey {
        module: "main".to_string(),
        id: id.to_string(),
        signature: Signature { inputs, outputs },
    }
}

// def swap<K>(field[K] a, u32 n) -> (u32, field[K]):
//      n = n + 1
//      return n, a
fn swap_key() -> FunctionKey {
    key(
        "swap",
        vec![field_array(Size::Identifier(id("K"))), uint32()],
        vec![uint32(), field_array(Size::Identifier(id("K")))],
    )
}

fn swap() -> TypedFunction {
    TypedFunction {
        generics: vec!["K".to_string()],
        arguments: vec![
            var(id("a"), field_array(Size::Identifier(id("K")))),
            var(id("n"), uint32()),
        ],
        statements: vec![
            Statement::Definition(
                var(id("n"), uint32()),
                Expression {
                    ty: uint32(),
                    inner: ExpressionInner::Operation(
                        Operator::Add,
                        vec![read(id("n"), uint32()), uint(1)],
                    ),
                },
            ),
            Statement::Return(vec![
                read(id("n"), uint32()),
                read(id("a"), field_array(Size::Value(2))),
            ]),
        ],
        signature: Signature {
            inputs: vec![field_array(Size::Identifier(id("K"))), uint32()],
            outputs: vec![uint32(), field_array(Size::Identifier(id("K")))],
        },
    }
}

// def count(u32 n) -> u32:
//      for i in 0..n do n = n + i endfor
//      return n
fn count_key() -> FunctionKey {
    key("count", vec![uint32()], vec![uint32()])
}

fn count_body() -> Vec<Statement> {
    vec![Statement::Definition(
        var(id("n"), uint32()),
        Expression {
            ty: uint32(),
            inner: ExpressionInner::Operation(
                Operator::Add,
                vec![read(id("n"), uint32()), read(id("i"), uint32())],
            ),
        },
    )]
}

fn count() -> TypedFunction {
    TypedFunction {
        generics: vec![],
        arguments: vec![var(id("n"), uint32())],
        statements: vec![
            Statement::For(
                var(id("i"), uint32()),
                uint(0),
                read(id("n"), uint32()),
                count_body(),
            ),
            Statement::Return(vec![read(id("n"), uint32())]),
        ],
        signature: Signature { inputs: vec![uint32()], outputs: vec![uint32()] },
    }
}

// a function that returns twice
fn twice_key() -> FunctionKey {
    key("twice", vec![uint32()], vec![uint32()])
}

fn twice() -> TypedFunction {
    TypedFunction {
        generics: vec![],
        arguments: vec![var(id("n"), uint32())],
        statements: vec![
            Statement::Return(vec![read(id("n"), uint32())]),
            Statement::Return(vec![read(id("n"), uint32())]),
        ],
        signature: Signature { inputs: vec![uint32()], outputs: vec![uint32()] },
    }
}

fn to_bits_key() -> FunctionKey {
    FlatEmbed::U32ToBits.key_in_module(&"main".to_string())
}

fn program() -> TypedProgram {
    TypedProgram {
        main: "main".to_string(),
        modules: vec![(
            "main".to_string(),
            TypedModule {
                functions: vec![
                    (swap_key(), TypedFunctionSymbol::Here(swap())),
                    (count_key(), TypedFunctionSymbol::Here(count())),
                    (twice_key(), TypedFunctionSymbol::Here(twice())),
                    (to_bits_key(), TypedFunctionSymbol::Flat(FlatEmbed::U32ToBits)),
                ],
            },
        )],
    }
}

type Inlined = Result<Output<(Vec<Statement>, Vec<Expression>), Vec<Versions>>, InlineError>;

fn complete(r: Inlined) -> (Vec<Statement>, Vec<Expression>) {
    match r {
        Ok(Output::Complete(inlined)) => inlined,
        other => panic!("expected a complete call, got {:?}", other),
    }
}

fn failure(r: Inlined) -> InlineError {
    match r {
        Err(e) => e,
        other => panic!("expected an error, got {:?}", other),
    }
}

fn swap_arguments(version: usize) -> Vec<Expression> {
    vec![read(idv("x", version), field_array(Size::Value(2))), uint(7)]
}

fn swap_results() -> Vec<Type> {
    vec![uint32(), field_array(Size::Value(2))]
}

#[test]
fn call_is_inlined_between_markers() {
    let mut cache = CallCache::new();
    let mut versions = Versions::new();
    versions.fresh(&source("n"));
    versions.fresh(&source("n"));

    let inlined = inline_call(
        &swap_key(),
        &swap_arguments(0),
        &swap_results(),
        &program(),
        &mut cache,
        &mut versions,
    );

    let two = || field_array(Size::Value(2));
    let expected_statements = vec![
        Statement::PushCallLog(
            swap_key(),
            GenericsAssignment(vec![GenericBinding { name: "K".to_string(), value: 2 }]),
        ),
        // the parameters get the concrete types of the arguments
        Statement::Definition(var(idv("a", 0), two()), read(idv("x", 0), two())),
        Statement::Definition(var(idv("n", 2), uint32()), uint(7)),
        // the generic parameter, then the body without its return
        Statement::Definition(var(idv("K", 0), uint32()), uint(2)),
        Statement::Definition(
            var(idv("n", 3), uint32()),
            Expression {
                ty: uint32(),
                inner: ExpressionInner::Operation(
                    Operator::Add,
                    vec![read(idv("n", 2), uint32()), uint(1)],
                ),
            },
        ),
        // one slot for each result
        Statement::Definition(var(slot(0, 0), uint32()), read(idv("n", 3), uint32())),
        Statement::Definition(var(slot(1, 0), two()), read(idv("a", 0), two())),
        Statement::PopCallLog,
    ];
    let expected_expressions = vec![read(slot(0, 0), uint32()), read(slot(1, 0), two())];

    assert_eq!(complete(inlined), (expected_statements, expected_expressions));
    assert_eq!(versions.current(&source("n")), Some(3));
    assert_eq!(versions.current(&source("a")), Some(0));
    assert_eq!(versions.current(&source("K")), Some(0));
    assert_eq!(versions.current(&CoreIdentifier::Call(0)), Some(0));
    assert_eq!(versions.current(&CoreIdentifier::Call(1)), Some(0));
}

#[test]
fn same_call_is_remembered() {
    let mut cache = CallCache::new();
    let mut versions = Versions::new();
    let first = inline_call(
        &swap_key(),
        &swap_arguments(0),
        &swap_results(),
        &program(),
        &mut cache,
        &mut versions,
    );
    let (_, expressions) = complete(first);

    let second = inline_call(
        &swap_key(),
        &swap_arguments(0),
        &swap_results(),
        &program(),
        &mut cache,
        &mut versions,
    );

    assert_eq!(complete(second), (vec![], expressions));
    assert_eq!(versions.current(&CoreIdentifier::Call(0)), Some(0));
    assert_eq!(versions.current(&source("n")), Some(1));
}

#[test]
fn call_with_other_arguments_is_inlined_again() {
    let mut cache = CallCache::new();
    let mut versions = Versions::new();
    let _ = inline_call(
        &swap_key(),
        &swap_arguments(0),
        &swap_results(),
        &program(),
        &mut cache,
        &mut versions,
    );

    let second = inline_call(
        &swap_key(),
        &swap_arguments(1),
        &swap_results(),
        &program(),
        &mut cache,
        &mut versions,
    );

    let (statements, expressions) = complete(second);
    assert_eq!(statements.len(), 8);
    assert_eq!(
        expressions,
        vec![read(slot(0, 1), uint32()), read(slot(1, 1), field_array(Size::Value(2)))]
    );
}

#[test]
fn primitive_is_not_inlined() {
    let mut cache = CallCache::new();
    let mut versions = Versions::new();
    let bits = || Type::Array(Box::new(Type::Boolean), Size::Value(32));
    let inlined = inline_call(
        &to_bits_key(),
        &vec![uint(7)],
        &vec![bits()],
        &program(),
        &mut cache,
        &mut versions,
    );
    assert_eq!(
        failure(inlined),
        InlineError::Flat(FlatEmbed::U32ToBits, vec![uint(7)], vec![bits()])
    );
    assert_eq!(versions.len(), 0);
}

#[test]
fn unknown_function_is_handed_back() {
    let mut cache = CallCache::new();
    let mut versions = Versions::new();
    let unknown = key("unknown", vec![uint32()], vec![uint32()]);
    let inlined = inline_call(
        &unknown,
        &vec![uint(7)],
        &vec![uint32()],
        &program(),
        &mut cache,
        &mut versions,
    );
    assert_eq!(
        failure(inlined),
        InlineError::NonConstant(
            key("unknown", vec![uint32()], vec![uint32()]),
            vec![uint(7)],
            vec![uint32()]
        )
    );
}

#[test]
fn call_with_a_length_that_is_no_literal_is_handed_back() {
    let mut cache = CallCache::new();
    let mut versions = Versions::new();
    let arguments = || vec![read(id("x"), field_array(Size::Identifier(idv("m", 1)))), uint(7)];
    let inlined = inline_call(
        &swap_key(),
        &arguments(),
        &swap_results(),
        &program(),
        &mut cache,
        &mut versions,
    );
    assert_eq!(
        failure(inlined),
        InlineError::NonConstant(swap_key(), arguments(), swap_results())
    );
    assert_eq!(versions.len(), 0);

    // so is one whose result type is not concrete
    let results = || vec![uint32(), field_array(Size::Identifier(idv("m", 1)))];
    let inlined = inline_call(
        &swap_key(),
        &swap_arguments(0),
        &results(),
        &program(),
        &mut cache,
        &mut versions,
    );
    assert_eq!(
        failure(inlined),
        InlineError::NonConstant(swap_key(), swap_arguments(0), results())
    );
}

#[test]
fn types_that_do_not_match_the_declaration_are_an_error() {
    let mut cache = CallCache::new();
    let mut versions = Versions::new();
    let results = || vec![uint32(), field_array(Size::Value(3))];
    let inlined = inline_call(
        &swap_key(),
        &swap_arguments(0),
        &results(),
        &program(),
        &mut cache,
        &mut versions,
    );
    assert_eq!(
        failure(inlined),
        InlineError::Generic(
            swap_key(),
            key("swap", vec![field_array(Size::Value(2)), uint32()], results())
        )
    );
}

#[test]
fn function_with_a_loop_is_inlined_with_the_versions_before_the_loop() {
    let mut cache = CallCache::new();
    let mut versions = Versions::new();
    let inlined = inline_call(
        &count_key(),
        &vec![uint(3)],
        &vec![uint32()],
        &program(),
        &mut cache,
        &mut versions,
    );
    match inlined {
        Ok(Output::Incomplete((statements, expressions), backups)) => {
            assert_eq!(
                statements,
                vec![
                    Statement::PushCallLog(count_key(), GenericsAssignment(vec![])),
                    Statement::Definition(var(idv("n", 0), uint32()), uint(3)),
                    Statement::For(
                        var(id("i"), uint32()),
                        uint(0),
                        read(idv("n", 0), uint32()),
                        count_body(),
                    ),
                    Statement::Definition(var(slot(0, 0), uint32()), read(idv("n", 2), uint32())),
                    Statement::PopCallLog,
                ]
            );
            assert_eq!(expressions, vec![read(slot(0, 0), uint32())]);
            assert_eq!(backups.len(), 1);
            assert_eq!(backups[0].current(&source("n")), Some(0));
        }
        other => panic!("expected an incomplete call, got {:?}", other),
    }
    assert_eq!(versions.current(&source("n")), Some(2));
}

#[test]
fn function_that_returns_twice_is_handed_back() {
    let mut cache = CallCache::new();
    let mut versions = Versions::new();
    let inlined = inline_call(
        &twice_key(),
        &vec![uint(3)],
        &vec![uint32()],
        &program(),
        &mut cache,
        &mut versions,
    );
    assert_eq!(
        failure(inlined),
        InlineError::NonConstant(twice_key(), vec![uint(3)], vec![uint32()])
    );
}
