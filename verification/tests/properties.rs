use reducer::absy::{
    Expression, ExpressionInner, FlatEmbed, Statement, TypedFunction, TypedFunctionSymbol,
    TypedModule, TypedProgram, Variable,
};
use reducer::identifier::{CoreIdentifier, Identifier};
use reducer::reduce_program;
use reducer::types::{FunctionKey, Operator, Signature, Size, Type, UBitwidth};

const FIELD_BITS: u32 = 254;
const PASSES: usize = 16;

fn id(name: &str) -> Identifier {
    Identifier::from_name(name)
}

fn idv(name: &str, version: usize) -> Identifier {
    Identifier::from_name(name).version(version)
}

fn slot(index: usize, version: usize) -> Identifier {
    Identifier { id: CoreIdentifier::Call(index), version }
}

fn field() -> Type {
    Type::FieldElement
}

fn uint32() -> Type {
    Type::Uint(UBitwidth::B32)
}

fn fields(size: Size) -> Type {
    Type::Array(Box::new(Type::FieldElement), size)
}

fn bits() -> Type {
    Type::Array(Box::new(Type::Boolean), Size::Value(32))
}

fn generic(name: &str) -> Size {
    Size::Identifier(id(name))
}

fn var(id: Identifier, ty: Type) -> Variable {
    Variable { id, ty }
}

fn read(id: Identifier, ty: Type) -> Expression {
    Expression { ty, inner: ExpressionInner::Identifier(id) }
}

fn uint(value: u128) -> Expression {
    Expression { ty: uint32(), inner: ExpressionInner::Value(value) }
}

fn number(value: u128) -> Expression {
    Expression { ty: field(), inner: ExpressionInner::Value(value) }
}

fn plus(ty: Type, a: Expression, b: Expression) -> Expression {
    Expression { ty, inner: ExpressionInner::Operation(Operator::Add, vec![a, b]) }
}

fn call(key: FunctionKey, arguments: Vec<Expression>, ty: Type) -> Expression {
    Expression { ty, inner: ExpressionInner::FunctionCall(key, arguments) }
}

fn key(id: &str, inputs: Vec<Type>, outputs: Vec<Type>) -> FunctionKey {
    FunctionKey {
        module: "main".to_string(),
        id: id.to_string(),
        signature: Signature { inputs, outputs },
    }
}

fn program(functions: Vec<(FunctionKey, TypedFunction)>) -> TypedProgram {
    TypedProgram {
        main: "main".to_string(),
        modules: vec![(
            "main".to_string(),
            TypedModule {
                functions: functions
                    .into_iter()
                    .map(|(k, f)| (k, TypedFunctionSymbol::Here(f)))
                    .collect(),
            },
        )],
    }
}

fn entry(p: &TypedProgram) -> &TypedFunction {
    match &p.modules[0].1.functions[0].1 {
        TypedFunctionSymbol::Here(f) => f,
        other => panic!("expected the entry function, got {:?}", other),
    }
}

fn identity(f: TypedFunction) -> TypedFunction {
    f
}

// replaces the reads of variables that are defined as literals by these
// literals, in expressions and in the lengths of types
struct Constants(Vec<(Identifier, Expression)>);

impl Constants {
    fn get(&self, id: &Identifier) -> Option<&Expression> {
        self.0.iter().find(|(k, _)| k == id).map(|(_, e)| e)
    }

    fn size(&self, s: &Size) -> Size {
        match s {
            Size::Identifier(id) => match self.get(id).map(|e| &e.inner) {
                Some(ExpressionInner::Value(v)) => Size::Value(*v as u32),
                _ => s.clone(),
            },
            other => other.clone(),
        }
    }

    fn ty(&self, t: &Type) -> Type {
        match t {
            Type::Array(inner, size) => Type::Array(Box::new(self.ty(inner)), self.size(size)),
            other => other.clone(),
        }
    }

    fn variable(&self, v: &Variable) -> Variable {
        Variable { id: v.id.clone(), ty: self.ty(&v.ty) }
    }

    fn expression(&self, e: &Expression) -> Expression {
        let ty = self.ty(&e.ty);
        let inner = match &e.inner {
            ExpressionInner::Identifier(id) => match self.get(id) {
                Some(constant) => return constant.clone(),
                None => ExpressionInner::Identifier(id.clone()),
            },
            ExpressionInner::Value(v) => ExpressionInner::Value(*v),
            ExpressionInner::Values(es) => ExpressionInner::Values(self.expressions(es)),
            ExpressionInner::Operation(op, es) => {
                ExpressionInner::Operation(*op, self.expressions(es))
            }
            ExpressionInner::FunctionCall(key, es) => {
                ExpressionInner::FunctionCall(key.clone(), self.expressions(es))
            }
        };
        Expression { ty, inner }
    }

    fn expressions(&self, es: &[Expression]) -> Vec<Expression> {
        es.iter().map(|e| self.expression(e)).collect()
    }
}

fn propagate(f: TypedFunction) -> TypedFunction {
    let mut constants = Constants(vec![]);
    let mut statements = vec![];
    for s in &f.statements {
        statements.push(match s {
            Statement::Definition(v, e) => {
                let e = constants.expression(e);
                let v = constants.variable(v);
                if let ExpressionInner::Value(_) = e.inner {
                    constants.0.push((v.id.clone(), e.clone()));
                }
                Statement::Definition(v, e)
            }
            Statement::MultipleDefinition(vs, key, args, types) => Statement::MultipleDefinition(
                vs.iter().map(|v| constants.variable(v)).collect(),
                key.clone(),
                constants.expressions(args),
                types.iter().map(|t| constants.ty(t)).collect(),
            ),
            Statement::Return(es) => Statement::Return(constants.expressions(es)),
            other => other.clone(),
        });
    }
    TypedFunction { statements, ..f }
}

fn has_call(e: &Expression) -> bool {
    match &e.inner {
        ExpressionInner::FunctionCall(_, _) => true,
        ExpressionInner::Values(es) | ExpressionInner::Operation(_, es) => es.iter().any(has_call),
        _ => false,
    }
}

fn is_primitive(key: &FunctionKey) -> bool {
    [
        FlatEmbed::Unpack(FIELD_BITS),
        FlatEmbed::U8ToBits,
        FlatEmbed::U16ToBits,
        FlatEmbed::U32ToBits,
        FlatEmbed::U8FromBits,
        FlatEmbed::U16FromBits,
        FlatEmbed::U32FromBits,
    ]
    .iter()
    .any(|e| &e.key_in_module(&"main".to_string()) == key)
}

fn assert_reduced(f: &TypedFunction) {
    let mut defined: Vec<&Identifier> = vec![];
    let mut open = 0usize;
    for s in &f.statements {
        match s {
            Statement::Definition(v, e) => {
                assert!(!has_call(e), "call left in {:?}", s);
                defined.push(&v.id);
            }
            Statement::MultipleDefinition(vs, key, args, _) => {
                assert!(is_primitive(key), "call left in {:?}", s);
                assert!(!args.iter().any(has_call), "call left in {:?}", s);
                defined.extend(vs.iter().map(|v| &v.id));
            }
            Statement::Return(es) => assert!(!es.iter().any(has_call), "call left in {:?}", s),
            Statement::For(_, _, _, _) => panic!("loop left: {:?}", s),
            Statement::PushCallLog(_, _) => open += 1,
            Statement::PopCallLog => {
                assert!(open > 0, "a call is closed that is not open");
                open -= 1;
            }
        }
    }
    assert_eq!(open, 0, "a call is not closed");
    for (i, a) in defined.iter().enumerate() {
        for b in &defined[i + 1..] {
            assert_ne!(a, b, "defined twice");
        }
    }
}

fn count_opened(f: &TypedFunction) -> usize {
    f.statements.iter().filter(|s| matches!(s, Statement::PushCallLog(_, _))).count()
}

// def bar<K>(field[K] a) -> field[K]:
//      return a
// def foo<K>(field[K] a) -> field[K]:
//      field[K] ret = bar(a)
//      return ret
// def sum(u32 n) -> u32:
//      u32 s = n
//      for u32 i in 0..3 do
//          s = s + i
//      endfor
//      return s
// def main(field[2] x) -> field[2]:
//      field[2] b = foo(x)
//      u32 t = sum(1) + sum(1)
//      for u32 j in 0..2 do
//          b = foo(b)
//          t = t + sum(j)
//      endfor
//      bool[32] c = _U32_TO_BITS(t)
//      return b
fn nested() -> TypedProgram {
    let generic_key = |name: &str| {
        key(name, vec![fields(generic("K"))], vec![fields(generic("K"))])
    };
    let sum_key = || key("sum", vec![uint32()], vec![uint32()]);
    let bar = TypedFunction {
        generics: vec!["K".to_string()],
        arguments: vec![var(id("a"), fields(generic("K")))],
        statements: vec![Statement::Return(vec![read(id("a"), fields(generic("K")))])],
        signature: generic_key("bar").signature,
    };
    let foo = TypedFunction {
        generics: vec!["K".to_string()],
        arguments: vec![var(id("a"), fields(generic("K")))],
        statements: vec![
            Statement::MultipleDefinition(
                vec![var(id("ret"), fields(generic("K")))],
                generic_key("bar"),
                vec![read(id("a"), fields(generic("K")))],
                vec![fields(generic("K"))],
            ),
            Statement::Return(vec![read(id("ret"), fields(generic("K")))]),
        ],
        signature: generic_key("foo").signature,
    };
    let sum = TypedFunction {
        generics: vec![],
        arguments: vec![var(id("n"), uint32())],
        statements: vec![
            Statement::Definition(var(id("s"), uint32()), read(id("n"), uint32())),
            Statement::For(
                var(id("i"), uint32()),
                uint(0),
                uint(3),
                vec![Statement::Definition(
                    var(id("s"), uint32()),
                    plus(uint32(), read(id("s"), uint32()), read(id("i"), uint32())),
                )],
            ),
            Statement::Return(vec![read(id("s"), uint32())]),
        ],
        signature: sum_key().signature,
    };
    let two = || fields(Size::Value(2));
    let call_foo = || {
        Statement::MultipleDefinition(
            vec![var(id("b"), two())],
            generic_key("foo"),
            vec![read(id("b"), two())],
            vec![two()],
        )
    };
    let main = TypedFunction {
        generics: vec![],
        arguments: vec![var(id("x"), two())],
        statements: vec![
            Statement::MultipleDefinition(
                vec![var(id("b"), two())],
                generic_key("foo"),
                vec![read(id("x"), two())],
                vec![two()],
            ),
            Statement::Definition(
                var(id("t"), uint32()),
                plus(
                    uint32(),
                    call(sum_key(), vec![uint(1)], uint32()),
                    call(sum_key(), vec![uint(1)], uint32()),
                ),
            ),
            Statement::For(
                var(id("j"), uint32()),
                uint(0),
                uint(2),
                vec![
                    call_foo(),
                    Statement::Definition(
                        var(id("t"), uint32()),
                        plus(
                            uint32(),
                            read(id("t"), uint32()),
                            call(sum_key(), vec![read(id("j"), uint32())], uint32()),
                        ),
                    ),
                ],
            ),
            Statement::Definition(
                var(id("c"), bits()),
                call(
                    FlatEmbed::U32ToBits.key_in_module(&"main".to_string()),
                    vec![read(id("t"), uint32())],
                    bits(),
                ),
            ),
            Statement::Return(vec![read(id("b"), two())]),
        ],
        signature: Signature { inputs: vec![two()], outputs: vec![two()] },
    };
    program(vec![
        (key("main", vec![two()], vec![two()]), main),
        (generic_key("foo"), foo),
        (generic_key("bar"), bar),
        (sum_key(), sum),
    ])
}

#[test]
fn reduced_function_has_no_loops_no_calls_and_no_identifier_defined_twice() {
    let reduced = reduce_program(nested(), FIELD_BITS, &propagate, PASSES).unwrap();
    assert_eq!(reduced.modules.len(), 1);
    assert_eq!(reduced.modules[0].1.functions.len(), 8);
    let main = entry(&reduced);
    assert_reduced(main);
    // foo and bar, for the call before the loop and for each of the two
    // rounds; sum, once for the two equal calls and once for each round
    assert_eq!(count_opened(main), 9);
    // the call of the primitive stays, as a statement
    let primitives: Vec<_> = main
        .statements
        .iter()
        .filter(|s| matches!(s, Statement::MultipleDefinition(_, _, _, _)))
        .collect();
    assert_eq!(primitives.len(), 1);
}

#[test]
fn same_program_gives_the_same_result() {
    let once = reduce_program(nested(), FIELD_BITS, &propagate, PASSES);
    let again = reduce_program(nested(), FIELD_BITS, &propagate, PASSES);
    assert_eq!(once, again);
}

#[test]
fn markers_stay_balanced_when_a_reduced_program_is_reduced_again() {
    let once = reduce_program(nested(), FIELD_BITS, &propagate, PASSES).unwrap();
    let opened = count_opened(entry(&once));
    let twice = reduce_program(once, FIELD_BITS, &propagate, PASSES).unwrap();
    assert_reduced(entry(&twice));
    assert_eq!(count_opened(entry(&twice)), opened);
}

#[test]
fn too_few_passes_exhaust() {
    assert_eq!(
        reduce_program(nested(), FIELD_BITS, &propagate, 1),
        Err(reducer::Error::Exhausted)
    );
}

fn field_identity() -> (FunctionKey, TypedFunction) {
    // def foo(field a) -> field:
    //      return a
    (
        key("foo", vec![field()], vec![field()]),
        TypedFunction {
            generics: vec![],
            arguments: vec![var(id("a"), field())],
            statements: vec![Statement::Return(vec![read(id("a"), field())])],
            signature: Signature { inputs: vec![field()], outputs: vec![field()] },
        },
    )
}

fn main_of(statements: Vec<Statement>) -> TypedFunction {
    TypedFunction {
        generics: vec![],
        arguments: vec![var(id("a"), field())],
        statements,
        signature: Signature { inputs: vec![field()], outputs: vec![field()] },
    }
}

fn main_key() -> FunctionKey {
    key("main", vec![field()], vec![field()])
}

fn inlined_identity(parameter: usize, argument: usize, result: usize) -> Vec<Statement> {
    vec![
        Statement::PushCallLog(field_identity().0, reducer::types::GenericsAssignment(vec![])),
        Statement::Definition(var(idv("a", parameter), field()), read(idv("a", argument), field())),
        Statement::Definition(var(slot(0, result), field()), read(idv("a", parameter), field())),
        Statement::PopCallLog,
    ]
}

#[test]
fn call_inside_an_expression_is_inlined_before_its_statement() {
    // def main(field a) -> field:
    //      field b = foo(a) + 1
    //      return b
    let foo = || call(field_identity().0, vec![read(id("a"), field())], field());
    let p = program(vec![
        (
            main_key(),
            main_of(vec![
                Statement::Definition(var(id("b"), field()), plus(field(), foo(), number(1))),
                Statement::Return(vec![read(id("b"), field())]),
            ]),
        ),
        field_identity(),
    ]);

    let reduced = reduce_program(p, FIELD_BITS, &identity, PASSES).unwrap();

    let mut expected = inlined_identity(1, 0, 0);
    expected.push(Statement::Definition(
        var(id("b"), field()),
        plus(field(), read(slot(0, 0), field()), number(1)),
    ));
    expected.push(Statement::Return(vec![read(id("b"), field())]));
    assert_eq!(entry(&reduced), &main_of(expected));
}

#[test]
fn equal_calls_in_one_pass_are_inlined_once() {
    // def main(field a) -> field:
    //      return foo(a) + foo(a)
    let foo = || call(field_identity().0, vec![read(id("a"), field())], field());
    let p = program(vec![
        (main_key(), main_of(vec![Statement::Return(vec![plus(field(), foo(), foo())])])),
        field_identity(),
    ]);

    let reduced = reduce_program(p, FIELD_BITS, &identity, PASSES).unwrap();

    let mut expected = inlined_identity(1, 0, 0);
    expected.push(Statement::Return(vec![plus(
        field(),
        read(slot(0, 0), field()),
        read(slot(0, 0), field()),
    )]));
    assert_eq!(entry(&reduced), &main_of(expected));
}

#[test]
fn calls_with_other_arguments_get_their_own_slots() {
    // def main(field a) -> field:
    //      a = foo(a)
    //      return foo(a)
    let foo = |version: usize| {
        call(field_identity().0, vec![read(idv("a", version), field())], field())
    };
    let p = program(vec![
        (
            main_key(),
            main_of(vec![
                Statement::Definition(var(id("a"), field()), foo(0)),
                Statement::Return(vec![foo(0)]),
            ]),
        ),
        field_identity(),
    ]);

    let reduced = reduce_program(p, FIELD_BITS, &identity, PASSES).unwrap();

    let mut expected = inlined_identity(2, 0, 0);
    expected.push(Statement::Definition(var(idv("a", 1), field()), read(slot(0, 0), field())));
    expected.extend(inlined_identity(3, 1, 1));
    expected.push(Statement::Return(vec![read(slot(0, 1), field())]));
    assert_eq!(entry(&reduced), &main_of(expected));
}

#[test]
fn call_of_a_primitive_inside_an_expression_becomes_a_statement() {
    // def main(field a) -> field:
    //      bool[254] b = _UNPACK(a)
    //      return a
    let unpacked = || Type::Array(Box::new(Type::Boolean), Size::Value(254));
    let unpack = || FlatEmbed::Unpack(FIELD_BITS).key_in_module(&"main".to_string());
    let p = program(vec![(
        main_key(),
        main_of(vec![
            Statement::Definition(
                var(id("b"), unpacked()),
                call(unpack(), vec![read(id("a"), field())], unpacked()),
            ),
            Statement::Return(vec![read(id("a"), field())]),
        ]),
    )]);

    let reduced = reduce_program(p, FIELD_BITS, &identity, PASSES).unwrap();

    let expected = main_of(vec![
        Statement::MultipleDefinition(
            vec![var(slot(0, 0), unpacked())],
            unpack(),
            vec![read(id("a"), field())],
            vec![unpacked()],
        ),
        Statement::Definition(var(id("b"), unpacked()), read(slot(0, 0), unpacked())),
        Statement::Return(vec![read(id("a"), field())]),
    ]);
    assert_eq!(entry(&reduced), &expected);
}

#[test]
fn loops_inside_loops_are_unrolled_in_two_passes() {
    // def main(field a) -> field:
    //      for u32 i in 0..2 do
    //          for u32 j in 0..2 do
    //              a = a + 1
    //          endfor
    //      endfor
    //      return a
    let inner = Statement::For(
        var(id("j"), uint32()),
        uint(0),
        uint(2),
        vec![Statement::Definition(
            var(id("a"), field()),
            plus(field(), read(id("a"), field()), number(1)),
        )],
    );
    let outer = Statement::For(var(id("i"), uint32()), uint(0), uint(2), vec![inner]);
    let main = || main_of(vec![outer.clone(), Statement::Return(vec![read(id("a"), field())])]);
    let p = || program(vec![(main_key(), main())]);

    assert_eq!(reduce_program(p(), FIELD_BITS, &identity, 1), Err(reducer::Error::Exhausted));

    let reduced = reduce_program(p(), FIELD_BITS, &identity, 2).unwrap();
    let f = entry(&reduced);
    assert_reduced(f);
    // two definitions of `i`, four of `j`, four of `a`, and the return
    assert_eq!(f.statements.len(), 11);
    let increments: Vec<_> = f
        .statements
        .iter()
        .filter_map(|s| match s {
            Statement::Definition(v, e) if v.id.id == CoreIdentifier::Source("a".to_string()) => {
                match &e.inner {
                    ExpressionInner::Operation(_, es) => match &es[0].inner {
                        ExpressionInner::Identifier(read) => Some((read.version, v.id.version)),
                        _ => None,
                    },
                    _ => None,
                }
            }
            _ => None,
        })
        .collect();
    // every round reads what the round before it defined, the first the
    // parameter
    assert_eq!(increments.len(), 4);
    assert_eq!(increments[0].0, 0);
    for pair in increments.windows(2) {
        assert_eq!(pair[1].0, pair[0].1);
    }
    match f.statements.last() {
        Some(Statement::Return(es)) => {
            assert_eq!(es, &vec![read(idv("a", increments[3].1), field())])
        }
        other => panic!("expected a return, got {:?}", other),
    }
}

#[test]
fn call_with_a_struct_whose_member_has_a_generic_length() {
    // struct Point<K> { field[K] a }
    // def first<K>(Point<K> p) -> field[K]:
    //      return p.a
    // def main(Point<2> p) -> field[2]:
    //      field[2] r = first(p)
    //      return r
    let point = |size: Size| Type::Struct("Point".to_string(), vec![("a".to_string(), fields(size))]);
    let two = || fields(Size::Value(2));
    let first_key = || key("first", vec![point(generic("K"))], vec![fields(generic("K"))]);
    let member = |p: Identifier, k: Size| Expression {
        ty: fields(k.clone()),
        inner: ExpressionInner::Operation(Operator::Member, vec![read(p, point(k)), uint(0)]),
    };
    let first = TypedFunction {
        generics: vec!["K".to_string()],
        arguments: vec![var(id("p"), point(generic("K")))],
        statements: vec![Statement::Return(vec![member(id("p"), generic("K"))])],
        signature: first_key().signature,
    };
    let main = |statements: Vec<Statement>| TypedFunction {
        generics: vec![],
        arguments: vec![var(id("p"), point(Size::Value(2)))],
        statements,
        signature: Signature { inputs: vec![point(Size::Value(2))], outputs: vec![two()] },
    };
    let main_key = || key("main", vec![point(Size::Value(2))], vec![two()]);
    let p = program(vec![
        (
            main_key(),
            main(vec![
                Statement::MultipleDefinition(
                    vec![var(id("r"), two())],
                    first_key(),
                    vec![read(id("p"), point(Size::Value(2)))],
                    vec![two()],
                ),
                Statement::Return(vec![read(id("r"), two())]),
            ]),
        ),
        (first_key(), first),
    ]);

    let reduced = reduce_program(p, FIELD_BITS, &identity, PASSES).unwrap();

    let expected = main(vec![
        Statement::PushCallLog(
            first_key(),
            reducer::types::GenericsAssignment(vec![reducer::types::GenericBinding {
                name: "K".to_string(),
                value: 2,
            }]),
        ),
        Statement::Definition(
            var(idv("p", 1), point(Size::Value(2))),
            read(id("p"), point(Size::Value(2))),
        ),
        Statement::Definition(var(id("K"), uint32()), uint(2)),
        Statement::Definition(var(slot(0, 0), two()), member(idv("p", 1), generic("K"))),
        Statement::PopCallLog,
        Statement::Definition(var(id("r"), two()), read(slot(0, 0), two())),
        Statement::Return(vec![read(id("r"), two())]),
    ]);
    assert_eq!(entry(&reduced), &expected);
}
