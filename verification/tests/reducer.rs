use reducer::absy::{
    Expression, ExpressionInner, FlatEmbed, Statement, TypedFunction, TypedFunctionSymbol,
    TypedModule, TypedProgram, Variable,
};
use reducer::identifier::{CoreIdentifier, Identifier};
use reducer::reducer::Reducer;
use reducer::substitution::Substitutions;
use reducer::types::{FunctionKey, GenericsAssignment, Operator, Signature, Size, Type, UBitwidth};
use reducer::versions::Versions;
use reducer::{reduce_program, Error};

fn source(name: &str) -> CoreIdentifier {
    CoreIdentifier::Source(name.to_string())
}

fn id(name: &str) -> Identifier {
    Identifier::from_name(name)
}

fn idv(name: &str, version: usize) -> Identifier {
    Identifier::from_name(name).version(version)
}

fn slot(index: usize, version: usize) -> Identifier {
    Identifier { id: CoreIdentifier::Call(index), version }
}

fn uint32() -> Type {
    Type::Uint(UBitwidth::B32)
}

fn fields(size: Size) -> Type {
    Type::Array(Box::new(Type::FieldElement), size)
}

fn bits() -> Type {
    Type::Array(Box::new(Type::Boolean), Size::Value(32))
}

fn var(id: Identifier, ty: Type) -> Variable {
    Variable { id, ty }
}

fn read(id: Identifier, ty: Type) -> Expression {
    Expression { ty, inner: ExpressionInner::Identifier(id) }
}

fn uint(value: u128) -> Expression {
    Expression { ty: uint32(), inner: ExpressionInner::Value(value) }
}

fn key(id: &str, inputs: Vec<Type>, outputs: Vec<Type>) -> FunctionKey {
    FunctionKey {
        module: "main".to_string(),
        id: id.to_string(),
        signature: Signature { inputs, outputs },
    }
}

// def foo<K>(field[K] a) -> field[K]:
//      return a
fn foo_key() -> FunctionKey {
    key(
        "foo",
        vec![fields(Size::Identifier(id("K")))],
        vec![fields(Size::Identifier(id("K")))],
    )
}

// def inc(u32 n) -> u32:
//      return n
fn inc_key() -> FunctionKey {
    key("inc", vec![uint32()], vec![uint32()])
}

fn to_bits_key() -> FunctionKey {
    FlatEmbed::U32ToBits.key_in_module(&"main".to_string())
}

fn program() -> TypedProgram {
    let foo = TypedFunction {
        generics: vec!["K".to_string()],
        arguments: vec![var(id("a"), fields(Size::Identifier(id("K"))))],
        statements: vec![Statement::Return(vec![read(id("a"), fields(Size::Value(1)))])],
        signature: foo_key().signature,
    };
    let inc = TypedFunction {
        generics: vec![],
        arguments: vec![var(id("n"), uint32())],
        statements: vec![Statement::Return(vec![read(id("n"), uint32())])],
        signature: inc_key().signature,
    };
    TypedProgram {
        main: "main".to_string(),
        modules: vec![(
            "main".to_string(),
            TypedModule {
                functions: vec![
                    (foo_key(), TypedFunctionSymbol::Here(foo)),
                    (inc_key(), TypedFunctionSymbol::Here(inc)),
                    (to_bits_key(), TypedFunctionSymbol::Flat(FlatEmbed::U32ToBits)),
                ],
            },
        )],
    }
}

fn two_variables() -> Vec<Variable> {
    vec![var(idv("x", 1), uint32()), var(idv("y", 1), uint32())]
}

#[test]
fn types_that_do_not_match_are_an_error_whatever_the_number_of_variables() {
    let p = program();
    let mut reducer = Reducer::new(&p, Versions::new(), Substitutions::new(), vec![]);
    // the argument has no element, the result is to have one; two
    // variables stand where the call has one result
    let call = Statement::MultipleDefinition(
        two_variables(),
        foo_key(),
        vec![Expression { ty: fields(Size::Value(0)), inner: ExpressionInner::Values(vec![]) }],
        vec![fields(Size::Value(1))],
    );

    assert_eq!(
        reducer.fold_statement(&call),
        Err(Error::Incompatible(
            "main/foo<K>: field[K] -> field[K]".to_string(),
            "main/foo: field[0] -> field[1]".to_string()
        ))
    );
}

#[test]
fn call_of_a_primitive_gets_its_key_whatever_the_number_of_variables() {
    let p = program();
    let mut reducer = Reducer::new(&p, Versions::new(), Substitutions::new(), vec![]);
    // the same call under another name for the primitive's key
    let call = |key: FunctionKey| {
        Statement::MultipleDefinition(two_variables(), key, vec![uint(7)], vec![bits()])
    };

    assert_eq!(reducer.fold_statement(&call(to_bits_key())), Ok(vec![call(to_bits_key())]));
    assert!(reducer.complete);
    assert!(reducer.statement_buffer.is_empty());
}

#[test]
fn results_are_not_assigned_to_another_number_of_variables() {
    let p = program();
    let mut reducer = Reducer::new(&p, Versions::new(), Substitutions::new(), vec![]);
    let call = Statement::MultipleDefinition(
        two_variables(),
        inc_key(),
        vec![uint(7)],
        vec![uint32()],
    );

    // the call is inlined, and the statement stays after it
    assert_eq!(
        reducer.fold_statement(&call),
        Ok(vec![
            Statement::PushCallLog(inc_key(), GenericsAssignment(vec![])),
            Statement::Definition(var(idv("n", 0), uint32()), uint(7)),
            Statement::Definition(var(slot(0, 0), uint32()), read(idv("n", 0), uint32())),
            Statement::PopCallLog,
            call.clone(),
        ])
    );
    assert!(!reducer.complete);
}

#[test]
fn results_are_assigned_to_as_many_variables() {
    let p = program();
    let mut reducer = Reducer::new(&p, Versions::new(), Substitutions::new(), vec![]);
    let call = Statement::MultipleDefinition(
        vec![var(idv("x", 1), uint32())],
        inc_key(),
        vec![uint(7)],
        vec![uint32()],
    );

    assert_eq!(
        reducer.fold_statement(&call),
        Ok(vec![
            Statement::PushCallLog(inc_key(), GenericsAssignment(vec![])),
            Statement::Definition(var(idv("n", 0), uint32()), uint(7)),
            Statement::Definition(var(slot(0, 0), uint32()), read(idv("n", 0), uint32())),
            Statement::PopCallLog,
            Statement::Definition(var(idv("x", 1), uint32()), read(slot(0, 0), uint32())),
        ])
    );
    assert!(reducer.complete);
}

fn count(from: u128, to: Expression) -> Statement {
    // for u32 i in from..to do
    //      s = s + i
    // endfor
    Statement::For(
        var(id("i"), uint32()),
        uint(from),
        to,
        vec![Statement::Definition(
            var(id("s"), uint32()),
            Expression {
                ty: uint32(),
                inner: ExpressionInner::Operation(
                    Operator::Add,
                    vec![read(id("s"), uint32()), read(id("i"), uint32())],
                ),
            },
        )],
    )
}

fn versions(s: usize) -> Versions {
    let mut v = Versions::new();
    for _ in 0..=s {
        v.fresh(&source("s"));
    }
    v
}

#[test]
fn loop_takes_the_first_versions_recorded() {
    let p = program();
    // two loops are to come; before the first, `s` was at version 0, before
    // the second at version 2
    let mut reducer =
        Reducer::new(&p, versions(4), Substitutions::new(), vec![versions(0), versions(2)]);

    let rounds = reducer.fold_statement(&count(1, uint(3))).unwrap();

    let round = |index: usize, i: u128, from: usize, to: usize| {
        vec![
            Statement::Definition(var(idv("i", index), uint32()), uint(i)),
            Statement::Definition(
                var(idv("s", to), uint32()),
                Expression {
                    ty: uint32(),
                    inner: ExpressionInner::Operation(
                        Operator::Add,
                        vec![read(idv("s", from), uint32()), read(idv("i", index), uint32())],
                    ),
                },
            ),
        ]
    };
    // the rounds go from the lower bound up, from the versions raised by one
    let mut expected = round(0, 1, 5, 6);
    expected.extend(round(1, 2, 6, 7));
    assert_eq!(rounds, expected);
    assert!(reducer.complete);
    // the versions of the second loop are left
    assert_eq!(reducer.for_loop_versions.len(), 1);
    assert_eq!(reducer.for_loop_versions[0].current(&source("s")), Some(2));
    // the floor stands for the version before the loop, the version
    // reserved after the loop for the version of the last round
    assert_eq!(reducer.substitutions.target(&idv("s", 5)), 0);
    assert_eq!(reducer.substitutions.target(&idv("s", 2)), 7);
    assert_eq!(reducer.versions.current(&source("s")), Some(7));
}

#[test]
fn loop_without_rounds_maps_the_reserved_version_to_the_version_before_it() {
    let p = program();
    let mut reducer = Reducer::new(&p, versions(2), Substitutions::new(), vec![versions(0)]);

    assert_eq!(reducer.fold_statement(&count(3, uint(3))), Ok(vec![]));
    assert_eq!(reducer.fold_statement(&uint_return()), Ok(vec![uint_return()]));

    assert!(reducer.complete);
    assert_eq!(reducer.substitutions.target(&idv("s", 3)), 0);
    assert_eq!(reducer.substitutions.target(&idv("s", 2)), 0);
}

fn uint_return() -> Statement {
    Statement::Return(vec![read(idv("s", 2), uint32())])
}

#[test]
fn loop_whose_bound_is_no_literal_stays_with_its_versions() {
    let p = program();
    let mut reducer = Reducer::new(&p, versions(2), Substitutions::new(), vec![versions(0)]);
    let kept = count(0, read(idv("n", 0), uint32()));

    assert_eq!(reducer.fold_statement(&kept), Ok(vec![kept.clone()]));

    assert!(!reducer.complete);
    assert!(reducer.for_loop_versions.is_empty());
    assert_eq!(reducer.for_loop_versions_after.len(), 1);
    assert_eq!(reducer.for_loop_versions_after[0].current(&source("s")), Some(0));
    assert_eq!(reducer.versions.current(&source("s")), Some(2));
}

#[test]
fn loop_whose_bound_does_not_fit_the_loop_variable_is_not_unrolled() {
    let p = program();
    let mut reducer = Reducer::new(&p, versions(2), Substitutions::new(), vec![versions(0)]);
    let kept = count(0, uint(1 << 32));

    assert_eq!(reducer.fold_statement(&kept), Ok(vec![kept.clone()]));
    assert!(!reducer.complete);
    assert_eq!(reducer.for_loop_versions_after.len(), 1);

    // the reduction of a function with such a loop does not finish
    let main = TypedFunction {
        generics: vec![],
        arguments: vec![var(id("s"), uint32())],
        statements: vec![kept, Statement::Return(vec![read(id("s"), uint32())])],
        signature: Signature { inputs: vec![uint32()], outputs: vec![uint32()] },
    };
    let p = TypedProgram {
        main: "main".to_string(),
        modules: vec![(
            "main".to_string(),
            TypedModule {
                functions: vec![(
                    key("main", vec![uint32()], vec![uint32()]),
                    TypedFunctionSymbol::Here(main),
                )],
            },
        )],
    };
    assert_eq!(
        reduce_program(p, 254, &|f: TypedFunction| f, 4),
        Err(Error::Exhausted)
    );
}

#[test]
fn largest_bounds_that_fit_are_unrolled_with_the_index_as_it_is() {
    let p = program();
    let mut reducer = Reducer::new(&p, versions(2), Substitutions::new(), vec![versions(0)]);
    let top = u32::MAX as u128;

    let rounds = reducer.fold_statement(&count(top - 1, uint(top))).unwrap();

    assert_eq!(rounds.len(), 2);
    assert_eq!(rounds[0], Statement::Definition(var(idv("i", 0), uint32()), uint(top - 1)));
}
