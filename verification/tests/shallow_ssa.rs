use reducer::absy::{Expression, ExpressionInner, Statement, TypedFunction, Variable};
use reducer::identifier::{CoreIdentifier, Identifier};
use reducer::shallow_ssa::ShallowTransformer;
use reducer::types::{
    FunctionKey, GenericBinding, GenericsAssignment, Operator, Signature, Size, Type, UBitwidth,
};
use reducer::versions::Versions;
use reducer::Output;

fn source(name: &str) -> CoreIdentifier {
    CoreIdentifier::Source(name.to_string())
}

fn id(name: &str) -> Identifier {
    Identifier::from_name(name)
}

fn idv(name: &str, version: usize) -> Identifier {
    Identifier::from_name(name).version(version)
}

fn uint32() -> Type {
    Type::Uint(UBitwidth::B32)
}

fn var(id: Identifier) -> Variable {
    Variable { id, ty: uint32() }
}

fn read(id: Identifier) -> Expression {
    Expression { ty: uint32(), inner: ExpressionInner::Identifier(id) }
}

fn uint(value: u128) -> Expression {
    Expression { ty: uint32(), inner: ExpressionInner::Value(value) }
}

fn plus(a: Expression, b: Expression) -> Expression {
    Expression { ty: uint32(), inner: ExpressionInner::Operation(Operator::Add, vec![a, b]) }
}

fn key(id: &str) -> FunctionKey {
    FunctionKey {
        module: "main".to_string(),
        id: id.to_string(),
        signature: Signature { inputs: vec![uint32()], outputs: vec![uint32()] },
    }
}

fn function(arguments: Vec<Variable>, statements: Vec<Statement>) -> TypedFunction {
    TypedFunction {
        generics: vec![],
        arguments,
        statements,
        signature: Signature { inputs: vec![uint32()], outputs: vec![uint32()] },
    }
}

fn no_generics() -> GenericsAssignment {
    GenericsAssignment(vec![])
}

#[test]
fn definitions_get_fresh_versions_and_reads_the_latest() {
    // def f(a):
    //      b = a
    //      a = a + b
    //      b = a
    //      return b
    let f = function(
        vec![var(id("a"))],
        vec![
            Statement::Definition(var(id("b")), read(id("a"))),
            Statement::Definition(var(id("a")), plus(read(id("a")), read(id("b")))),
            Statement::Definition(var(id("b")), read(id("a"))),
            Statement::Return(vec![read(id("b"))]),
        ],
    );
    let mut versions = Versions::new();
    let expected = function(
        vec![var(idv("a", 0))],
        vec![
            Statement::Definition(var(idv("b", 0)), read(idv("a", 0))),
            Statement::Definition(var(idv("a", 1)), plus(read(idv("a", 0)), read(idv("b", 0)))),
            Statement::Definition(var(idv("b", 1)), read(idv("a", 1))),
            Statement::Return(vec![read(idv("b", 1))]),
        ],
    );
    match ShallowTransformer::transform(&f, &no_generics(), &mut versions) {
        Some(Output::Complete(g)) => assert_eq!(g, expected),
        other => panic!("expected a complete function, got {:?}", other),
    }
    assert_eq!(versions.current(&source("a")), Some(1));
    assert_eq!(versions.current(&source("b")), Some(1));
}

#[test]
fn versions_of_the_input_do_not_matter() {
    let f = |a: usize, b: usize| {
        function(
            vec![var(idv("a", a))],
            vec![
                Statement::Definition(var(idv("b", b)), read(idv("a", a))),
                Statement::Return(vec![read(idv("b", b))]),
            ],
        )
    };
    let mut versions = Versions::new();
    match ShallowTransformer::transform(&f(7, 9), &no_generics(), &mut versions) {
        Some(Output::Complete(g)) => assert_eq!(g, f(0, 0)),
        other => panic!("expected a complete function, got {:?}", other),
    }
}

#[test]
fn versions_continue_from_the_given_ones() {
    let f = function(
        vec![var(id("a"))],
        vec![
            Statement::Definition(var(id("b")), read(id("a"))),
            Statement::Return(vec![read(id("b"))]),
        ],
    );
    let mut versions = Versions::new();
    versions.fresh(&source("a"));
    versions.fresh(&source("a"));
    versions.fresh(&source("a"));
    let expected = function(
        vec![var(idv("a", 3))],
        vec![
            Statement::Definition(var(idv("b", 0)), read(idv("a", 3))),
            Statement::Return(vec![read(idv("b", 0))]),
        ],
    );
    match ShallowTransformer::transform(&f, &no_generics(), &mut versions) {
        Some(Output::Complete(g)) => assert_eq!(g, expected),
        other => panic!("expected a complete function, got {:?}", other),
    }
}

#[test]
fn generic_parameters_are_defined_first() {
    let sized = |n: Identifier| Type::Array(Box::new(Type::FieldElement), Size::Identifier(n));
    let f = |k: Identifier, version: usize, bindings: Vec<Statement>| TypedFunction {
        generics: vec!["K".to_string(), "L".to_string()],
        arguments: vec![],
        statements: bindings
            .into_iter()
            .chain(vec![Statement::Definition(
                Variable { id: idv("b", version), ty: sized(k) },
                uint(0),
            )])
            .collect(),
        signature: Signature { inputs: vec![], outputs: vec![] },
    };
    let generics = GenericsAssignment(vec![
        GenericBinding { name: "K".to_string(), value: 3 },
        GenericBinding { name: "L".to_string(), value: 5 },
    ]);
    let mut versions = Versions::new();
    versions.fresh(&source("K"));
    let expected = f(
        idv("K", 1),
        0,
        vec![
            Statement::Definition(var(idv("K", 1)), uint(3)),
            Statement::Definition(var(idv("L", 0)), uint(5)),
        ],
    );
    match ShallowTransformer::transform(&f(id("K"), 0, vec![]), &generics, &mut versions) {
        Some(Output::Complete(g)) => assert_eq!(g, expected),
        other => panic!("expected a complete function, got {:?}", other),
    }
}

// def f(n):
//      s = 0
//      for i in 0..n do s = s + i endfor
//      s = s + 1
//      return s
// with `s` at the version `first` before the loop, read at the version
// `read_after` after it and defined at the version `last` then, and `n` at
// the version `bound`
fn sum_loop(first: usize, bound: usize, read_after: usize, last: usize) -> Vec<Statement> {
    vec![
        Statement::Definition(var(idv("s", first)), uint(0)),
        Statement::For(
            var(id("i")),
            uint(0),
            read(idv("n", bound)),
            vec![Statement::Definition(var(id("s")), plus(read(id("s")), read(id("i"))))],
        ),
        Statement::Definition(var(idv("s", last)), plus(read(idv("s", read_after)), uint(1))),
        Statement::Return(vec![read(idv("s", last))]),
    ]
}

#[test]
fn loop_is_left_and_two_versions_are_reserved() {
    let f = function(vec![var(id("n"))], sum_loop(0, 0, 0, 0));
    let mut versions = Versions::new();
    let expected = function(vec![var(idv("n", 0))], sum_loop(0, 0, 2, 3));
    match ShallowTransformer::transform(&f, &no_generics(), &mut versions) {
        Some(Output::Incomplete(g, backups)) => {
            assert_eq!(g, expected);
            assert_eq!(backups.len(), 1);
            assert_eq!(backups[0].current(&source("s")), Some(0));
            assert_eq!(backups[0].current(&source("n")), Some(0));
            assert_eq!(backups[0].current(&source("i")), None);
        }
        other => panic!("expected an incomplete function, got {:?}", other),
    }
    // the versions before the loop, raised by two, and one definition more
    assert_eq!(versions.current(&source("s")), Some(3));
    assert_eq!(versions.current(&source("n")), Some(2));
    assert_eq!(versions.current(&source("i")), None);
}

#[test]
fn call_statement_is_left_with_fresh_variables() {
    let call = |a: usize, b: usize, c: usize| {
        Statement::MultipleDefinition(
            vec![var(idv("b", b)), var(idv("c", c))],
            key("foo"),
            vec![read(idv("a", a))],
            vec![uint32(), uint32()],
        )
    };
    let f = function(vec![var(id("a"))], vec![call(0, 0, 0), call(0, 0, 0)]);
    let mut versions = Versions::new();
    match ShallowTransformer::transform(&f, &no_generics(), &mut versions) {
        Some(Output::Incomplete(g, backups)) => {
            assert_eq!(g, function(vec![var(idv("a", 0))], vec![call(0, 0, 0), call(0, 1, 1)]));
            assert!(backups.is_empty());
        }
        other => panic!("expected an incomplete function, got {:?}", other),
    }
}

#[test]
fn call_inside_an_expression_is_left() {
    let call = |a: usize| {
        plus(
            Expression {
                ty: uint32(),
                inner: ExpressionInner::FunctionCall(key("foo"), vec![read(idv("a", a))]),
            },
            uint(1),
        )
    };
    let f = |a: usize, b: usize| {
        function(
            vec![var(idv("a", a))],
            vec![
                Statement::Definition(var(idv("a", b)), read(idv("a", a))),
                Statement::Return(vec![call(b)]),
            ],
        )
    };
    let mut versions = Versions::new();
    match ShallowTransformer::transform(&f(0, 0), &no_generics(), &mut versions) {
        Some(Output::Incomplete(g, backups)) => {
            assert_eq!(
                g,
                function(
                    vec![var(idv("a", 0))],
                    vec![
                        Statement::Definition(var(idv("a", 1)), read(idv("a", 0))),
                        Statement::Return(vec![call(1)]),
                    ],
                )
            );
            assert!(backups.is_empty());
        }
        other => panic!("expected an incomplete function, got {:?}", other),
    }
}

#[test]
fn transformation_is_stable() {
    let f = function(vec![var(id("n"))], sum_loop(0, 0, 0, 0));
    let mut versions = Versions::new();
    let once = match ShallowTransformer::transform(&f, &no_generics(), &mut versions) {
        Some(Output::Incomplete(g, _)) => g,
        other => panic!("expected an incomplete function, got {:?}", other),
    };
    let mut versions = Versions::new();
    let twice = match ShallowTransformer::transform(&once, &no_generics(), &mut versions) {
        Some(Output::Incomplete(g, _)) => g,
        other => panic!("expected an incomplete function, got {:?}", other),
    };
    assert_eq!(once, twice);
}

#[test]
fn versions_that_run_out_end_the_transformation() {
    let f = function(
        vec![],
        vec![Statement::Definition(var(id("a")), uint(0))],
    );
    let mut versions = Versions::new();
    versions.fresh(&source("a"));
    assert!(versions.shift(usize::MAX));
    assert!(ShallowTransformer::transform(&f, &no_generics(), &mut versions).is_none());
}
