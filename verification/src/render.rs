//! Function keys as text, as they appear in error reports.

use crate::identifier::{CoreIdentifier, CoreIdentifierView};
use crate::model::views;
use crate::types::{
    lemma_member_decreases, lemma_struct_view, FunctionKey, FunctionKeyView, Operator,
    Signature, SignatureView, Size, SizeView, Type, TypeView, UBitwidth,
};
use vstd::prelude::*;
use vstd::string::StringExecFns;

verus! {

/// The character of a decimal digit.
pub open spec fn digit(d: nat) -> char {
    if d == 0 {
        '0'
    } else if d == 1 {
        '1'
    } else if d == 2 {
        '2'
    } else if d == 3 {
        '3'
    } else if d == 4 {
        '4'
    } else if d == 5 {
        '5'
    } else if d == 6 {
        '6'
    } else if d == 7 {
        '7'
    } else if d == 8 {
        '8'
    } else {
        '9'
    }
}

/// A number in decimal, without leading zeros.
pub open spec fn decimal(n: nat) -> Seq<char>
    decreases n,
{
    if n < 10 {
        seq![digit(n)]
    } else {
        decimal(n / 10).push(digit(n % 10))
    }
}

/// The sign of an operator.
pub open spec fn operator_text(op: Operator) -> Seq<char> {
    match op {
        Operator::Add => "+"@,
        Operator::Sub => "-"@,
        Operator::Mult => "*"@,
        Operator::Div => "/"@,
        Operator::Eq => "=="@,
        Operator::Lt => "<"@,
        Operator::And => "&&"@,
        Operator::Or => "||"@,
        Operator::Not => "!"@,
        Operator::IfElse => "?"@,
        Operator::Select => "@"@,
        Operator::Member => "."@,
    }
}

/// An array length as text: a literal in decimal, a name as it is, an
/// operation in brackets.
pub open spec fn size_text(s: SizeView) -> Seq<char>
    decreases s,
{
    match s {
        SizeView::Value(n) => decimal(n as nat),
        SizeView::Identifier(id) => match id.id {
            CoreIdentifierView::Source(name) => name,
            CoreIdentifierView::Call(i) => "#"@ + decimal(i as nat),
        },
        SizeView::Operation(op, a, b) => "("@ + size_text(*a) + " "@ + operator_text(op) + " "@
            + size_text(*b) + ")"@,
    }
}

/// A type as text: `field`, `bool`, `u8`, `u16`, `u32`, the element type
/// followed by the length in square brackets, or the name of a struct
/// followed by its members in braces.
pub open spec fn type_text(t: TypeView) -> Seq<char>
    decreases t,
{
    match t {
        TypeView::FieldElement => "field"@,
        TypeView::Boolean => "bool"@,
        TypeView::Uint(UBitwidth::B8) => "u8"@,
        TypeView::Uint(UBitwidth::B16) => "u16"@,
        TypeView::Uint(UBitwidth::B32) => "u32"@,
        TypeView::Array(inner, size) => type_text(*inner) + "["@ + size_text(size) + "]"@,
        TypeView::Struct(name, members) => name + " {"@ + joined(members_texts(members)) + "}"@,
    }
}

/// The members of a struct type as texts: the name of each, `: `, and its
/// type.
pub open spec fn members_texts(members: Seq<(Seq<char>, TypeView)>) -> Seq<Seq<char>>
    decreases members,
{
    Seq::new(
        members.len(),
        |i: int|
            if 0 <= i < members.len() {
                members[i].0 + ": "@ + type_text(members[i].1)
            } else {
                arbitrary()
            },
    )
}

/// The texts joined, with `", "` between them.
pub open spec fn joined(parts: Seq<Seq<char>>) -> Seq<char>
    decreases parts.len(),
{
    if parts.len() == 0 {
        Seq::empty()
    } else if parts.len() == 1 {
        parts[0]
    } else {
        joined(parts.drop_last()) + ", "@ + parts.last()
    }
}

/// The names that occur in a size, from left to right.
pub open spec fn size_names(s: SizeView) -> Seq<Seq<char>>
    decreases s,
{
    match s {
        SizeView::Value(_) => Seq::empty(),
        SizeView::Identifier(id) => match id.id {
            CoreIdentifierView::Source(name) => seq![name],
            CoreIdentifierView::Call(_) => Seq::empty(),
        },
        SizeView::Operation(_, a, b) => size_names(*a) + size_names(*b),
    }
}

/// The names that occur in the lengths of a type: those of the element
/// type of an array before its own, those of the members of a struct in
/// order.
pub open spec fn type_names(t: TypeView) -> Seq<Seq<char>>
    decreases t,
{
    match t {
        TypeView::Array(inner, size) => type_names(*inner) + size_names(size),
        TypeView::Struct(_, members) => members_names(members),
        _ => Seq::empty(),
    }
}

/// The names that occur in the lengths of the types of the members of a
/// struct, in order.
pub open spec fn members_names(members: Seq<(Seq<char>, TypeView)>) -> Seq<Seq<char>>
    decreases members,
{
    if members.len() == 0 {
        Seq::empty()
    } else {
        members_names(members.drop_last()) + type_names(members.last().1)
    }
}

/// The names that occur in the lengths of the types, in order.
pub open spec fn types_names(ts: Seq<TypeView>) -> Seq<Seq<char>>
    decreases ts.len(),
{
    if ts.len() == 0 {
        Seq::empty()
    } else {
        types_names(ts.drop_last()) + type_names(ts.last())
    }
}

/// The names of a sequence, each at its first occurrence only.
pub open spec fn distinct(names: Seq<Seq<char>>) -> Seq<Seq<char>>
    decreases names.len(),
{
    if names.len() == 0 {
        Seq::empty()
    } else {
        let head = distinct(names.drop_last());
        if head.contains(names.last()) {
            head
        } else {
            head.push(names.last())
        }
    }
}

/// The generic parameters of a signature: the names in its input types,
/// then those in its output types, each once.
pub open spec fn signature_generics(s: SignatureView) -> Seq<Seq<char>> {
    distinct(types_names(s.inputs) + types_names(s.outputs))
}

/// The texts of the types of a sequence.
pub open spec fn types_texts(ts: Seq<TypeView>) -> Seq<Seq<char>> {
    Seq::new(ts.len(), |i: int| type_text(ts[i]))
}

/// A function key as text: the module, `/`, the function's name, its
/// generic parameters in angle brackets where it has any, `: `, the input
/// types, ` -> `, and the output types.
pub open spec fn key_text(k: FunctionKeyView) -> Seq<char> {
    let generics = signature_generics(k.signature);
    k.module + "/"@ + k.id + (if generics.len() == 0 {
        Seq::empty()
    } else {
        "<"@ + joined(generics) + ">"@
    }) + ": "@ + joined(types_texts(k.signature.inputs)) + " -> "@ + joined(
        types_texts(k.signature.outputs),
    )
}

fn digit_text(d: u32) -> (r: &'static str)
    requires
        d < 10,
    ensures
        r@ == seq![digit(d as nat)],
{
    proof {
        reveal_strlit("0");
        reveal_strlit("1");
        reveal_strlit("2");
        reveal_strlit("3");
        reveal_strlit("4");
        reveal_strlit("5");
        reveal_strlit("6");
        reveal_strlit("7");
        reveal_strlit("8");
        reveal_strlit("9");
    }
    let r = if d == 0 {
        "0"
    } else if d == 1 {
        "1"
    } else if d == 2 {
        "2"
    } else if d == 3 {
        "3"
    } else if d == 4 {
        "4"
    } else if d == 5 {
        "5"
    } else if d == 6 {
        "6"
    } else if d == 7 {
        "7"
    } else if d == 8 {
        "8"
    } else {
        "9"
    };
    assert(r@ =~= seq![digit(d as nat)]);
    r
}

/// Appends a number in decimal.
pub fn push_decimal(out: &mut String, n: usize)
    ensures
        final(out)@ == old(out)@ + decimal(n as nat),
    decreases n,
{
    if n < 10 {
        out.append(digit_text(n as u32));
    } else {
        push_decimal(out, n / 10);
        out.append(digit_text((n % 10) as u32));
        assert(out@ =~= old(out)@ + decimal(n as nat));
    }
}

fn operator_str(op: Operator) -> (r: &'static str)
    ensures
        r@ == operator_text(op),
{
    match op {
        Operator::Add => "+",
        Operator::Sub => "-",
        Operator::Mult => "*",
        Operator::Div => "/",
        Operator::Eq => "==",
        Operator::Lt => "<",
        Operator::And => "&&",
        Operator::Or => "||",
        Operator::Not => "!",
        Operator::IfElse => "?",
        Operator::Select => "@",
        Operator::Member => ".",
    }
}

/// Appends an array length.
pub fn push_size(out: &mut String, s: &Size)
    ensures
        final(out)@ == old(out)@ + size_text(s@),
    decreases s,
{
    match s {
        Size::Value(n) => {
            push_decimal(out, *n as usize);
        },
        Size::Identifier(id) => match &id.id {
            CoreIdentifier::Source(name) => {
                out.append(name.as_str());
            },
            CoreIdentifier::Call(i) => {
                out.append("#");
                push_decimal(out, *i);
                assert(out@ =~= old(out)@ + size_text(s@));
            },
        },
        Size::Operation(op, a, b) => {
            out.append("(");
            push_size(out, &**a);
            out.append(" ");
            out.append(operator_str(*op));
            out.append(" ");
            push_size(out, &**b);
            out.append(")");
            assert(out@ =~= old(out)@ + size_text(s@));
        },
    }
}

/// Appends a type.
pub fn push_type(out: &mut String, t: &Type)
    ensures
        final(out)@ == old(out)@ + type_text(t@),
    decreases t, 1nat,
{
    match t {
        Type::FieldElement => {
            out.append("field");
        },
        Type::Boolean => {
            out.append("bool");
        },
        Type::Uint(UBitwidth::B8) => {
            out.append("u8");
        },
        Type::Uint(UBitwidth::B16) => {
            out.append("u16");
        },
        Type::Uint(UBitwidth::B32) => {
            out.append("u32");
        },
        Type::Array(inner, size) => {
            push_type(out, &**inner);
            out.append("[");
            push_size(out, size);
            out.append("]");
            assert(out@ =~= old(out)@ + type_text(t@));
        },
        Type::Struct(name, members) => {
            proof {
                lemma_struct_view(*t);
            }
            out.append(name.as_str());
            out.append(" {");
            let texts = members_as_texts(t, members);
            push_joined(out, &texts);
            out.append("}");
            assert(out@ =~= old(out)@ + type_text(t@));
        },
    }
}

fn members_as_texts(parent: &Type, members: &Vec<(String, Type)>) -> (r: Vec<String>)
    requires
        parent.members() == members@,
    ensures
        views(r@) == members_texts(views(members@)),
    decreases parent, 0nat,
{
    let mut texts: Vec<String> = Vec::new();
    let mut i: usize = 0;
    while i < members.len()
        invariant
            i <= members.len(),
            texts.len() == i,
            parent.members() == members@,
            forall|j: int|
                0 <= j < i ==> (#[trigger] texts@[j])@ == members@[j].0@ + ": "@ + type_text(
                    members@[j].1@,
                ),
        decreases members.len() - i,
    {
        proof {
            lemma_member_decreases(*parent, i as int);
        }
        let mut text = String::from_str(members[i].0.as_str());
        text.append(": ");
        push_type(&mut text, &members[i].1);
        texts.push(text);
        i += 1;
    }
    assert(views(texts@) =~= members_texts(views(members@)));
    texts
}

/// Appends the types of a list, with `", "` between them.
pub fn push_types(out: &mut String, ts: &Vec<Type>)
    ensures
        final(out)@ == old(out)@ + joined(types_texts(views(ts@))),
{
    let ghost texts = types_texts(views(ts@));
    let mut i: usize = 0;
    assert(texts.take(0) =~= Seq::empty());
    assert(out@ =~= old(out)@ + joined(texts.take(0)));
    while i < ts.len()
        invariant
            i <= ts.len(),
            texts == types_texts(views(ts@)),
            out@ == old(out)@ + joined(texts.take(i as int)),
        decreases ts.len() - i,
    {
        let ghost before = out@;
        if i > 0 {
            out.append(", ");
        }
        push_type(out, &ts[i]);
        proof {
            assert(texts.take(i + 1).drop_last() =~= texts.take(i as int));
            assert(texts.take(i + 1).last() == type_text(ts@[i as int]@));
            if i == 0 {
                assert(texts.take(1)[0] == texts.take(1).last());
                assert(joined(texts.take(0)) =~= Seq::<char>::empty());
            }
            assert(out@ =~= old(out)@ + joined(texts.take(i + 1)));
        }
        i += 1;
    }
    assert(texts.take(ts.len() as int) =~= texts);
}

/// Appends the texts of a list, with `", "` between them.
fn push_joined(out: &mut String, parts: &Vec<String>)
    ensures
        final(out)@ == old(out)@ + joined(views(parts@)),
{
    let ghost texts = views(parts@);
    let mut i: usize = 0;
    assert(texts.take(0) =~= Seq::empty());
    assert(out@ =~= old(out)@ + joined(texts.take(0)));
    while i < parts.len()
        invariant
            i <= parts.len(),
            texts == views(parts@),
            out@ == old(out)@ + joined(texts.take(i as int)),
        decreases parts.len() - i,
    {
        if i > 0 {
            out.append(", ");
        }
        out.append(parts[i].as_str());
        proof {
            assert(texts.take(i + 1).drop_last() =~= texts.take(i as int));
            assert(texts.take(i + 1).last() == parts@[i as int]@);
            if i == 0 {
                assert(texts.take(1)[0] == texts.take(1).last());
                assert(joined(texts.take(0)) =~= Seq::<char>::empty());
            }
            assert(out@ =~= old(out)@ + joined(texts.take(i + 1)));
        }
        i += 1;
    }
    assert(texts.take(parts.len() as int) =~= texts);
}

fn collect_size_names(out: &mut Vec<String>, s: &Size)
    ensures
        views(final(out)@) == views(old(out)@) + size_names(s@),
    decreases s,
{
    match s {
        Size::Value(_) => {
            assert(views(out@) =~= views(old(out)@) + size_names(s@));
        },
        Size::Identifier(id) => match &id.id {
            CoreIdentifier::Source(name) => {
                out.push(name.clone());
                assert(views(out@) =~= views(old(out)@) + size_names(s@));
            },
            CoreIdentifier::Call(_) => {
                assert(views(out@) =~= views(old(out)@) + size_names(s@));
            },
        },
        Size::Operation(_, a, b) => {
            collect_size_names(out, &**a);
            collect_size_names(out, &**b);
            assert(views(out@) =~= views(old(out)@) + size_names(s@));
        },
    }
}

fn collect_type_names(out: &mut Vec<String>, t: &Type)
    ensures
        views(final(out)@) == views(old(out)@) + type_names(t@),
    decreases t,
{
    match t {
        Type::Array(inner, size) => {
            collect_type_names(out, &**inner);
            collect_size_names(out, size);
            assert(views(out@) =~= views(old(out)@) + type_names(t@));
        },
        Type::Struct(_, members) => {
            proof {
                lemma_struct_view(*t);
            }
            let ghost all = views(members@);
            let mut i: usize = 0;
            assert(all.take(0) =~= Seq::empty());
            assert(views(out@) =~= views(old(out)@) + members_names(all.take(0)));
            while i < members.len()
                invariant
                    i <= members.len(),
                    t.members() == members@,
                    all == views(members@),
                    views(out@) == views(old(out)@) + members_names(all.take(i as int)),
                decreases members.len() - i,
            {
                proof {
                    lemma_member_decreases(*t, i as int);
                }
                collect_type_names(out, &members[i].1);
                proof {
                    assert(all.take(i + 1).drop_last() =~= all.take(i as int));
                    assert(all.take(i + 1).last() == members@[i as int]@);
                    assert(views(out@) =~= views(old(out)@) + members_names(all.take(i + 1)));
                }
                i += 1;
            }
            assert(all.take(members.len() as int) =~= all);
        },
        _ => {
            assert(views(out@) =~= views(old(out)@) + type_names(t@));
        },
    }
}

fn collect_types_names(out: &mut Vec<String>, ts: &Vec<Type>)
    ensures
        views(final(out)@) == views(old(out)@) + types_names(views(ts@)),
{
    let ghost all = views(ts@);
    let mut i: usize = 0;
    assert(all.take(0) =~= Seq::empty());
    assert(views(out@) =~= views(old(out)@) + types_names(all.take(0)));
    while i < ts.len()
        invariant
            i <= ts.len(),
            all == views(ts@),
            views(out@) == views(old(out)@) + types_names(all.take(i as int)),
        decreases ts.len() - i,
    {
        collect_type_names(out, &ts[i]);
        proof {
            assert(all.take(i + 1).drop_last() =~= all.take(i as int));
            assert(all.take(i + 1).last() == ts@[i as int]@);
            assert(views(out@) =~= views(old(out)@) + types_names(all.take(i + 1)));
        }
        i += 1;
    }
    assert(all.take(ts.len() as int) =~= all);
}

fn contains_name(names: &Vec<String>, name: &String) -> (r: bool)
    ensures
        r == views(names@).contains(name@),
{
    let mut i: usize = 0;
    while i < names.len()
        invariant
            i <= names.len(),
            forall|j: int| 0 <= j < i ==> #[trigger] views(names@)[j] != name@,
        decreases names.len() - i,
    {
        if names[i] == *name {
            assert(views(names@)[i as int] == name@);
            return true;
        }
        i += 1;
    }
    false
}

/// The generic parameters of a signature, each once, in the order in which
/// its types name them.
pub fn generics_of(s: &Signature) -> (r: Vec<String>)
    ensures
        views(r@) == signature_generics(s@),
{
    let mut names: Vec<String> = Vec::new();
    assert(views(names@) =~= Seq::empty());
    collect_types_names(&mut names, &s.inputs);
    collect_types_names(&mut names, &s.outputs);
    let ghost all = views(names@);
    assert(all =~= types_names(s@.inputs) + types_names(s@.outputs));
    let mut out: Vec<String> = Vec::new();
    let mut i: usize = 0;
    assert(all.take(0) =~= Seq::empty());
    assert(views(out@) =~= distinct(all.take(0)));
    while i < names.len()
        invariant
            i <= names.len(),
            all == views(names@),
            views(out@) == distinct(all.take(i as int)),
        decreases names.len() - i,
    {
        proof {
            assert(all.take(i + 1).drop_last() =~= all.take(i as int));
            assert(all.take(i + 1).last() == names@[i as int]@);
        }
        if !contains_name(&out, &names[i]) {
            let ghost before = views(out@);
            out.push(names[i].clone());
            assert(views(out@) =~= before.push(names@[i as int]@));
        }
        i += 1;
    }
    assert(all.take(names.len() as int) =~= all);
    out
}

impl FunctionKey {
    /// The key as text.
    pub fn to_string(&self) -> (r: String)
        ensures
            r@ == key_text(self@),
    {
        let mut out = String::from_str(self.module.as_str());
        out.append("/");
        out.append(self.id.as_str());
        let generics = generics_of(&self.signature);
        if generics.len() > 0 {
            out.append("<");
            push_joined(&mut out, &generics);
            out.append(">");
        }
        out.append(": ");
        push_types(&mut out, &self.signature.inputs);
        out.append(" -> ");
        push_types(&mut out, &self.signature.outputs);
        assert(out@ =~= key_text(self@));
        out
    }
}

} // verus!
