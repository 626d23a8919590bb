use reducer::absy::{Expression, ExpressionInner, Statement, TypedFunction, Variable};
use reducer::apply::Sub;
use reducer::identifier::{CoreIdentifier, Identifier};
use reducer::substitution::{Redirects, Substitutions};
use reducer::types::{Operator, Signature, Size, Type, UBitwidth};
use reducer::versions::Versions;

fn source(name: &str) -> CoreIdentifier {
    CoreIdentifier::Source(name.to_string())
}

fn idv(name: &str, version: usize) -> Identifier {
    Identifier::from_name(name).version(version)
}

fn versions(entries: &[(&str, usize)]) -> Versions {
    let mut v = Versions::new();
    for (name, version) in entries {
        for _ in 0..=*version {
            v.fresh(&source(name));
        }
    }
    v
}

#[test]
fn redirects_start_empty() {
    let r = Redirects::new();
    assert_eq!(r.get(0), None);
}

#[test]
fn insert_replaces_the_target_of_a_version() {
    let mut r = Redirects::new();
    r.insert(1, 2);
    r.insert(3, 4);
    assert_eq!(r.get(1), Some(2));
    r.insert(1, 5);
    assert_eq!(r.get(1), Some(5));
    assert_eq!(r.get(3), Some(4));
    assert_eq!(r.get(2), None);
}

#[test]
fn add_goes_straight_to_the_target_of_the_target() {
    let mut r = Redirects::new();
    r.add(2, 6);
    // 5 goes to 2, which goes to 6 already
    r.add(5, 2);
    assert_eq!(r.get(5), Some(6));
    // 7 goes to 9, which is not rewritten
    r.add(7, 9);
    assert_eq!(r.get(7), Some(9));
}

#[test]
fn canonicalize_compresses_every_path() {
    let mut r = Redirects::new();
    r.insert(1, 2);
    r.insert(2, 3);
    r.insert(3, 4);
    r.insert(10, 11);
    let c = r.canonicalize();
    assert_eq!(c.get(1), Some(4));
    assert_eq!(c.get(2), Some(4));
    assert_eq!(c.get(3), Some(4));
    assert_eq!(c.get(10), Some(11));
    assert_eq!(c.get(4), None);
    assert_eq!(c.get(11), None);
}

#[test]
fn canonicalize_does_not_depend_on_the_order_of_insertion() {
    let mut r = Redirects::new();
    r.insert(3, 4);
    r.insert(1, 2);
    r.insert(2, 3);
    let c = r.canonicalize();
    assert_eq!(c.get(1), Some(4));
    assert_eq!(c.get(2), Some(4));
    assert_eq!(c.get(3), Some(4));
}

#[test]
fn canonicalize_twice_is_canonicalize_once() {
    let mut r = Redirects::new();
    r.insert(1, 2);
    r.insert(2, 3);
    let c = r.canonicalize().canonicalize();
    assert_eq!(c.get(1), Some(3));
    assert_eq!(c.get(2), Some(3));
}

#[test]
fn canonicalize_ends_on_a_cycle() {
    let mut r = Redirects::new();
    r.insert(1, 2);
    r.insert(2, 1);
    let c = r.canonicalize();
    // two steps from each version of a map with two entries
    assert_eq!(c.get(1), Some(1));
    assert_eq!(c.get(2), Some(2));
}

#[test]
fn register_rewrites_the_versions_that_differ() {
    let mut s = Substitutions::new();
    // `a` differs, `b` is the same in both, `c` and `d` are in one map only
    s.register(
        &versions(&[("a", 3), ("b", 1), ("c", 2)]),
        &versions(&[("a", 0), ("b", 1), ("d", 5)]),
    );
    assert_eq!(s.target(&idv("a", 3)), 0);
    assert_eq!(s.target(&idv("a", 0)), 0);
    assert_eq!(s.target(&idv("a", 2)), 2);
    assert_eq!(s.target(&idv("b", 1)), 1);
    assert_eq!(s.target(&idv("c", 2)), 2);
    assert_eq!(s.target(&idv("d", 5)), 5);
}

#[test]
fn register_goes_straight_to_a_target_that_is_rewritten_already() {
    let mut s = Substitutions::new();
    s.register(&versions(&[("s", 5)]), &versions(&[("s", 11)]));
    // 12 would go to 5, which goes to 11 already
    s.register(&versions(&[("s", 12)]), &versions(&[("s", 5)]));
    assert_eq!(s.target(&idv("s", 12)), 11);
    assert_eq!(s.target(&idv("s", 5)), 11);
}

#[test]
fn canonicalize_compresses_the_paths_of_every_name() {
    let mut s = Substitutions::new();
    s.register(&versions(&[("a", 1), ("b", 7)]), &versions(&[("a", 2), ("b", 8)]));
    s.register(&versions(&[("a", 2), ("b", 8)]), &versions(&[("a", 3), ("b", 9)]));
    assert_eq!(s.target(&idv("a", 1)), 2);
    let c = s.canonicalize();
    assert_eq!(c.target(&idv("a", 1)), 3);
    assert_eq!(c.target(&idv("a", 2)), 3);
    assert_eq!(c.target(&idv("b", 7)), 9);
    assert_eq!(c.target(&idv("b", 8)), 9);
    assert_eq!(c.target(&idv("a", 3)), 3);
}

#[test]
fn fold_name_leaves_unknown_versions() {
    let mut s = Substitutions::new();
    s.register(&versions(&[("a", 3)]), &versions(&[("a", 0)]));
    let sub = Sub::new(&s);
    assert_eq!(sub.fold_name(idv("a", 3)), idv("a", 0));
    assert_eq!(sub.fold_name(idv("a", 1)), idv("a", 1));
    assert_eq!(sub.fold_name(idv("b", 3)), idv("b", 3));
    assert_eq!(
        sub.fold_name(Identifier { id: CoreIdentifier::Call(0), version: 3 }),
        Identifier { id: CoreIdentifier::Call(0), version: 3 }
    );
}

fn uint32() -> Type {
    Type::Uint(UBitwidth::B32)
}

fn read(id: Identifier) -> Expression {
    Expression { ty: uint32(), inner: ExpressionInner::Identifier(id) }
}

fn sized(name: &str, version: usize) -> Type {
    Type::Array(Box::new(Type::FieldElement), Size::Identifier(idv(name, version)))
}

fn statements(a: usize, n: usize) -> Vec<Statement> {
    vec![
        Statement::Definition(
            Variable { id: idv("a", a), ty: sized("n", n) },
            Expression {
                ty: uint32(),
                inner: ExpressionInner::Operation(
                    Operator::Add,
                    vec![read(idv("a", a)), read(idv("b", 3))],
                ),
            },
        ),
        Statement::For(
            Variable { id: idv("a", a), ty: uint32() },
            read(idv("a", a)),
            read(idv("n", n)),
            vec![Statement::Return(vec![read(idv("a", a))])],
        ),
        Statement::PopCallLog,
    ]
}

#[test]
fn fold_function_rewrites_every_occurrence() {
    let mut s = Substitutions::new();
    s.register(&versions(&[("a", 3), ("n", 2)]), &versions(&[("a", 7), ("n", 0)]));
    let f = |a: usize, n: usize| TypedFunction {
        generics: vec![],
        arguments: vec![Variable { id: idv("a", a), ty: uint32() }],
        statements: statements(a, n),
        signature: Signature { inputs: vec![uint32()], outputs: vec![] },
    };
    // parameters, definitions, reads, loop variables, loop bodies and the
    // lengths of array types are all rewritten
    assert_eq!(Sub::new(&s).fold_function(&f(3, 2)), f(7, 0));
    // other versions stay
    assert_eq!(Sub::new(&s).fold_function(&f(4, 1)), f(4, 1));
}
