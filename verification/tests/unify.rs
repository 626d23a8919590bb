use reducer::identifier::Identifier;
use reducer::types::{GenericBinding, Signature, Size, Type, UBitwidth};

fn array(ty: Type, size: Size) -> Type {
    Type::Array(Box::new(ty), size)
}

fn generic(name: &str) -> Size {
    Size::Identifier(Identifier::from_name(name))
}

fn binding(name: &str, value: u32) -> GenericBinding {
    GenericBinding { name: name.to_string(), value }
}

fn signature(inputs: Vec<Type>, outputs: Vec<Type>) -> Signature {
    Signature { inputs, outputs }
}

#[test]
fn signature_without_generics_matches_itself() {
    let s = || signature(vec![Type::FieldElement, Type::Uint(UBitwidth::B8)], vec![Type::Boolean]);
    assert_eq!(s().specialize(&s()), Some(vec![]));
}

#[test]
fn generics_get_the_lengths_of_the_call() {
    let declared = signature(
        vec![array(array(Type::FieldElement, generic("L")), generic("K"))],
        vec![array(Type::Boolean, generic("N")), array(Type::Boolean, generic("K"))],
    );
    let concrete = signature(
        vec![array(array(Type::FieldElement, Size::Value(5)), Size::Value(3))],
        vec![array(Type::Boolean, Size::Value(0)), array(Type::Boolean, Size::Value(3))],
    );
    // the element type is matched before the length
    assert_eq!(
        declared.specialize(&concrete),
        Some(vec![binding("L", 5), binding("K", 3), binding("N", 0)])
    );
}

#[test]
fn generic_cannot_have_two_values() {
    let declared = signature(
        vec![array(Type::FieldElement, generic("K"))],
        vec![array(Type::FieldElement, generic("K"))],
    );
    let concrete = signature(
        vec![array(Type::FieldElement, Size::Value(0))],
        vec![array(Type::FieldElement, Size::Value(1))],
    );
    assert_eq!(declared.specialize(&concrete), None);
}

#[test]
fn literal_length_has_to_be_equal() {
    let declared = signature(vec![array(Type::FieldElement, Size::Value(2))], vec![]);
    let same = signature(vec![array(Type::FieldElement, Size::Value(2))], vec![]);
    let other = signature(vec![array(Type::FieldElement, Size::Value(3))], vec![]);
    assert_eq!(declared.specialize(&same), Some(vec![]));
    assert_eq!(declared.specialize(&other), None);
}

#[test]
fn scalar_types_have_to_be_equal() {
    let declared = signature(vec![Type::Uint(UBitwidth::B8)], vec![]);
    assert_eq!(declared.specialize(&signature(vec![Type::Uint(UBitwidth::B16)], vec![])), None);
    assert_eq!(declared.specialize(&signature(vec![Type::FieldElement], vec![])), None);
    assert_eq!(declared.specialize(&signature(vec![Type::Boolean], vec![])), None);
    assert_eq!(
        declared.specialize(&signature(vec![array(Type::Boolean, Size::Value(1))], vec![])),
        None
    );
}

#[test]
fn number_of_types_has_to_be_equal() {
    let declared = signature(vec![Type::FieldElement], vec![Type::FieldElement]);
    assert_eq!(
        declared.specialize(&signature(vec![], vec![Type::FieldElement])),
        None
    );
    assert_eq!(
        declared.specialize(&signature(
            vec![Type::FieldElement],
            vec![Type::FieldElement, Type::FieldElement]
        )),
        None
    );
}

#[test]
fn length_of_the_call_has_to_be_a_literal() {
    let declared = signature(vec![array(Type::FieldElement, generic("K"))], vec![]);
    let open = signature(vec![array(Type::FieldElement, generic("n"))], vec![]);
    assert_eq!(declared.specialize(&open), None);
}

#[test]
fn types_with_literal_lengths_are_concrete() {
    assert!(Type::FieldElement.is_concrete());
    assert!(array(array(Type::Boolean, Size::Value(2)), Size::Value(3)).is_concrete());
    assert!(!array(Type::Boolean, generic("n")).is_concrete());
    assert!(!array(array(Type::Boolean, generic("n")), Size::Value(3)).is_concrete());
}

fn point(name: &str, members: Vec<(&str, Type)>) -> Type {
    Type::Struct(
        name.to_string(),
        members.into_iter().map(|(id, ty)| (id.to_string(), ty)).collect(),
    )
}

#[test]
fn generics_in_the_members_of_a_struct_get_their_values() {
    let declared = signature(
        vec![point(
            "Point",
            vec![
                ("a", array(Type::FieldElement, generic("K"))),
                ("b", Type::Boolean),
                ("c", point("Inner", vec![("d", array(Type::Boolean, generic("L")))])),
            ],
        )],
        vec![array(Type::FieldElement, generic("L"))],
    );
    let concrete = |l: u32| {
        signature(
            vec![point(
                "Point",
                vec![
                    ("a", array(Type::FieldElement, Size::Value(3))),
                    ("b", Type::Boolean),
                    ("c", point("Inner", vec![("d", array(Type::Boolean, Size::Value(4)))])),
                ],
            )],
            vec![array(Type::FieldElement, Size::Value(l))],
        )
    };
    assert_eq!(declared.specialize(&concrete(4)), Some(vec![binding("K", 3), binding("L", 4)]));
    assert_eq!(declared.specialize(&concrete(5)), None);
}

#[test]
fn structs_match_by_name_and_by_the_names_of_their_members() {
    let declared = |name: &str, member: &str| {
        signature(vec![point(name, vec![(member, Type::FieldElement)])], vec![])
    };
    assert_eq!(declared("Point", "x").specialize(&declared("Point", "x")), Some(vec![]));
    assert_eq!(declared("Point", "x").specialize(&declared("Other", "x")), None);
    assert_eq!(declared("Point", "x").specialize(&declared("Point", "y")), None);
    assert_eq!(
        declared("Point", "x").specialize(&signature(vec![point("Point", vec![])], vec![])),
        None
    );
    assert_eq!(
        declared("Point", "x").specialize(&signature(vec![Type::FieldElement], vec![])),
        None
    );
}

#[test]
fn struct_is_concrete_where_its_members_are() {
    assert!(point("Unit", vec![]).is_concrete());
    assert!(point("Point", vec![("a", array(Type::Boolean, Size::Value(1)))]).is_concrete());
    assert!(!point(
        "Point",
        vec![("a", Type::Boolean), ("b", array(Type::Boolean, generic("K")))]
    )
    .is_concrete());
}
