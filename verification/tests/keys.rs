use reducer::absy::{FlatEmbed, TypedFunctionSymbol, TypedModule, TypedProgram};
use reducer::embed::embeds_in_module;
use reducer::identifier::{CoreIdentifier, Identifier};
use reducer::model::Modelled;
use reducer::types::{FunctionKey, Operator, Signature, Size, Type, UBitwidth};
use reducer::Error;

fn id(name: &str) -> Identifier {
    Identifier::from_name(name)
}

fn array(ty: Type, size: Size) -> Type {
    Type::Array(Box::new(ty), size)
}

fn generic(name: &str) -> Size {
    Size::Identifier(id(name))
}

fn key(module: &str, id: &str, inputs: Vec<Type>, outputs: Vec<Type>) -> FunctionKey {
    FunctionKey {
        module: module.to_string(),
        id: id.to_string(),
        signature: Signature { inputs, outputs },
    }
}

#[test]
fn key_without_generics_as_text() {
    assert_eq!(
        key("main", "foo", vec![Type::FieldElement], vec![Type::FieldElement]).to_string(),
        "main/foo: field -> field"
    );
}

#[test]
fn key_with_a_generic_as_text() {
    assert_eq!(
        key(
            "main",
            "foo",
            vec![array(Type::FieldElement, generic("K"))],
            vec![array(Type::FieldElement, generic("K"))]
        )
        .to_string(),
        "main/foo<K>: field[K] -> field[K]"
    );
}

#[test]
fn concrete_key_as_text() {
    assert_eq!(
        key(
            "main",
            "foo",
            vec![array(Type::FieldElement, Size::Value(0))],
            vec![array(Type::FieldElement, Size::Value(1))]
        )
        .to_string(),
        "main/foo: field[0] -> field[1]"
    );
}

#[test]
fn key_without_inputs_and_outputs_as_text() {
    assert_eq!(key("a/b", "main", vec![], vec![]).to_string(), "a/b/main:  -> ");
}

#[test]
fn every_type_as_text() {
    assert_eq!(
        key(
            "m",
            "f",
            vec![
                Type::FieldElement,
                Type::Boolean,
                Type::Uint(UBitwidth::B8),
                Type::Uint(UBitwidth::B16),
                Type::Uint(UBitwidth::B32),
            ],
            vec![
                array(array(Type::Boolean, Size::Value(8)), Size::Value(4294967295)),
                array(Type::Uint(UBitwidth::B8), Size::Value(10)),
            ]
        )
        .to_string(),
        "m/f: field, bool, u8, u16, u32 -> bool[8][4294967295], u8[10]"
    );
}

#[test]
fn generics_are_listed_once_in_the_order_of_the_types() {
    assert_eq!(
        key(
            "m",
            "f",
            vec![
                array(array(Type::FieldElement, generic("L")), generic("K")),
                array(Type::Boolean, generic("L")),
            ],
            vec![array(Type::FieldElement, generic("N")), array(Type::FieldElement, generic("K"))]
        )
        .to_string(),
        "m/f<L, K, N>: field[L][K], bool[L] -> field[N], field[K]"
    );
}

#[test]
fn struct_types_as_text() {
    let point = Type::Struct(
        "Point".to_string(),
        vec![
            ("x".to_string(), Type::FieldElement),
            ("y".to_string(), array(Type::Uint(UBitwidth::B8), generic("K"))),
            (
                "z".to_string(),
                Type::Struct("Inner".to_string(), vec![("b".to_string(), Type::Boolean)]),
            ),
        ],
    );
    let unit = Type::Struct("Unit".to_string(), vec![]);
    assert_eq!(
        key("m", "f", vec![point, array(Type::FieldElement, generic("L"))], vec![unit])
            .to_string(),
        "m/f<K, L>: Point {x: field, y: u8[K], z: Inner {b: bool}}, field[L] -> Unit {}"
    );
}

#[test]
fn lengths_that_are_operations_as_text() {
    let n_minus_one = Size::Operation(
        Operator::Sub,
        Box::new(generic("n")),
        Box::new(Size::Operation(
            Operator::Mult,
            Box::new(Size::Value(2)),
            Box::new(Size::Identifier(Identifier { id: CoreIdentifier::Call(3), version: 1 })),
        )),
    );
    assert_eq!(
        key("m", "f", vec![array(Type::FieldElement, n_minus_one)], vec![]).to_string(),
        "m/f<n>: field[(n - (2 * #3))] -> "
    );
}

#[test]
fn errors_as_text() {
    assert_eq!(
        Error::Incompatible(
            "main/foo<K>: field[K] -> field[K]".to_string(),
            "main/foo: field[0] -> field[1]".to_string()
        )
        .to_string(),
        "Call site `main/foo: field[0] -> field[1]` incompatible with declaration `main/foo<K>: field[K] -> field[K]`"
    );
    assert_eq!(Error::GenericsInMain.to_string(), "Cannot generate code for generic function");
    assert_eq!(Error::Exhausted.to_string(), "Reduction did not finish within its limits");
}

#[test]
fn keys_of_the_primitives() {
    let bits = |n: u32| array(Type::Boolean, Size::Value(n));
    let module = "main".to_string();
    assert_eq!(
        FlatEmbed::Unpack(254).key_in_module(&module),
        key("main", "_UNPACK", vec![Type::FieldElement], vec![bits(254)])
    );
    assert_eq!(
        FlatEmbed::U8ToBits.key_in_module(&module),
        key("main", "_U8_TO_BITS", vec![Type::Uint(UBitwidth::B8)], vec![bits(8)])
    );
    assert_eq!(
        FlatEmbed::U16ToBits.key_in_module(&module),
        key("main", "_U16_TO_BITS", vec![Type::Uint(UBitwidth::B16)], vec![bits(16)])
    );
    assert_eq!(
        FlatEmbed::U32ToBits.key_in_module(&module),
        key("main", "_U32_TO_BITS", vec![Type::Uint(UBitwidth::B32)], vec![bits(32)])
    );
    assert_eq!(
        FlatEmbed::U8FromBits.key_in_module(&module),
        key("main", "_U8_FROM_BITS", vec![bits(8)], vec![Type::Uint(UBitwidth::B8)])
    );
    assert_eq!(
        FlatEmbed::U16FromBits.key_in_module(&module),
        key("main", "_U16_FROM_BITS", vec![bits(16)], vec![Type::Uint(UBitwidth::B16)])
    );
    assert_eq!(
        FlatEmbed::U32FromBits.key_in_module(&module),
        key("main", "_U32_FROM_BITS", vec![bits(32)], vec![Type::Uint(UBitwidth::B32)])
    );
}

#[test]
fn primitives_of_a_module() {
    let embeds = embeds_in_module(&"lib".to_string(), 254);
    let expected = vec![
        FlatEmbed::Unpack(254),
        FlatEmbed::U32FromBits,
        FlatEmbed::U16FromBits,
        FlatEmbed::U8FromBits,
        FlatEmbed::U32ToBits,
        FlatEmbed::U16ToBits,
        FlatEmbed::U8ToBits,
    ];
    assert_eq!(embeds.len(), 7);
    for ((key, symbol), embed) in embeds.iter().zip(expected) {
        assert_eq!(key, &embed.key_in_module(&"lib".to_string()));
        assert_eq!(symbol, &TypedFunctionSymbol::Flat(embed));
    }
}

#[test]
fn unpacking_goes_by_the_size_of_the_field() {
    let embeds = embeds_in_module(&"main".to_string(), 255);
    assert_eq!(embeds[0].1, TypedFunctionSymbol::Flat(FlatEmbed::Unpack(255)));
    assert_eq!(
        embeds[0].0.signature.outputs,
        vec![array(Type::Boolean, Size::Value(255))]
    );
}

#[test]
fn key_stands_for_its_last_entry() {
    let foo = || key("main", "foo", vec![], vec![]);
    let other = || key("main", "foo", vec![Type::Boolean], vec![]);
    let module = |functions| TypedModule { functions };
    let p = TypedProgram {
        main: "main".to_string(),
        modules: vec![
            (
                "main".to_string(),
                module(vec![(foo(), TypedFunctionSymbol::Flat(FlatEmbed::U8ToBits))]),
            ),
            (
                "lib".to_string(),
                module(vec![(foo(), TypedFunctionSymbol::Flat(FlatEmbed::U16ToBits))]),
            ),
            (
                "main".to_string(),
                module(vec![
                    (foo(), TypedFunctionSymbol::Flat(FlatEmbed::U32ToBits)),
                    (other(), TypedFunctionSymbol::Flat(FlatEmbed::U8FromBits)),
                    (foo(), TypedFunctionSymbol::Flat(FlatEmbed::U16FromBits)),
                ]),
            ),
        ],
    };
    assert_eq!(p.resolve(&foo()), Some(&TypedFunctionSymbol::Flat(FlatEmbed::U16FromBits)));
    assert_eq!(p.resolve(&other()), Some(&TypedFunctionSymbol::Flat(FlatEmbed::U8FromBits)));
    // a key is looked up in the module that it names
    assert_eq!(p.resolve(&key("lib", "foo", vec![], vec![])), None);
    assert_eq!(p.resolve(&key("main", "bar", vec![], vec![])), None);
    assert_eq!(p.resolve(&key("none", "foo", vec![], vec![])), None);
}

#[test]
fn struct_types_are_equal_by_name_and_members() {
    let point = |name: &str, member: &str, ty: Type| {
        Type::Struct(name.to_string(), vec![(member.to_string(), ty)])
    };
    let p = point("Point", "x", Type::FieldElement);
    assert!(p.equals(&point("Point", "x", Type::FieldElement)));
    assert!(!p.equals(&point("Other", "x", Type::FieldElement)));
    assert!(!p.equals(&point("Point", "y", Type::FieldElement)));
    assert!(!p.equals(&point("Point", "x", Type::Boolean)));
    assert!(!p.equals(&Type::Struct("Point".to_string(), vec![])));
    assert!(!p.equals(&Type::FieldElement));
    assert_eq!(p.clone(), p);
}

#[test]
fn equality_and_copies_go_by_the_whole_value() {
    let a = key("main", "foo", vec![array(Type::FieldElement, generic("K"))], vec![]);
    let b = key("main", "foo", vec![array(Type::FieldElement, generic("L"))], vec![]);
    assert!(a.equals(&a.duplicate()));
    assert!(!a.equals(&b));
    assert_eq!(a.duplicate(), a);
}
