//! The primitives that every reduced module offers, and their keys.

use crate::absy::{FlatEmbed, SymbolView, TypedFunctionSymbol};
use crate::model::views;
use crate::types::{
    type_view, FunctionKey, FunctionKeyView, Signature, SignatureView, Size, SizeView, Type,
    TypeView, UBitwidth,
};
use vstd::prelude::*;
use vstd::string::StringExecFns;

verus! {

/// The type of an array of `n` bits.
pub open spec fn bits_type(n: u32) -> TypeView {
    TypeView::Array(Box::new(TypeView::Boolean), SizeView::Value(n))
}

/// The name under which a primitive is known.
pub open spec fn embed_name(e: FlatEmbed) -> Seq<char> {
    match e {
        FlatEmbed::Unpack(_) => "_UNPACK"@,
        FlatEmbed::U8ToBits => "_U8_TO_BITS"@,
        FlatEmbed::U16ToBits => "_U16_TO_BITS"@,
        FlatEmbed::U32ToBits => "_U32_TO_BITS"@,
        FlatEmbed::U8FromBits => "_U8_FROM_BITS"@,
        FlatEmbed::U16FromBits => "_U16_FROM_BITS"@,
        FlatEmbed::U32FromBits => "_U32_FROM_BITS"@,
    }
}

/// The signature of a primitive: from a field element to its bits, from an
/// unsigned integer to its bits, or from bits to an unsigned integer.
pub open spec fn embed_signature(e: FlatEmbed) -> SignatureView {
    match e {
        FlatEmbed::Unpack(bits) => SignatureView {
            inputs: seq![TypeView::FieldElement],
            outputs: seq![bits_type(bits)],
        },
        FlatEmbed::U8ToBits => SignatureView {
            inputs: seq![TypeView::Uint(UBitwidth::B8)],
            outputs: seq![bits_type(8)],
        },
        FlatEmbed::U16ToBits => SignatureView {
            inputs: seq![TypeView::Uint(UBitwidth::B16)],
            outputs: seq![bits_type(16)],
        },
        FlatEmbed::U32ToBits => SignatureView {
            inputs: seq![TypeView::Uint(UBitwidth::B32)],
            outputs: seq![bits_type(32)],
        },
        FlatEmbed::U8FromBits => SignatureView {
            inputs: seq![bits_type(8)],
            outputs: seq![TypeView::Uint(UBitwidth::B8)],
        },
        FlatEmbed::U16FromBits => SignatureView {
            inputs: seq![bits_type(16)],
            outputs: seq![TypeView::Uint(UBitwidth::B16)],
        },
        FlatEmbed::U32FromBits => SignatureView {
            inputs: seq![bits_type(32)],
            outputs: seq![TypeView::Uint(UBitwidth::B32)],
        },
    }
}

/// The key of a primitive in a module.
pub open spec fn embed_key(e: FlatEmbed, module: Seq<char>) -> FunctionKeyView {
    FunctionKeyView { module, id: embed_name(e), signature: embed_signature(e) }
}

/// The primitives of a module over a field of `field_bits` bits, by key.
pub open spec fn embed_entries(module: Seq<char>, field_bits: u32) -> Seq<
    (FunctionKeyView, SymbolView),
> {
    seq![
        (embed_key(FlatEmbed::Unpack(field_bits), module), SymbolView::Flat(FlatEmbed::Unpack(field_bits))),
        (embed_key(FlatEmbed::U32FromBits, module), SymbolView::Flat(FlatEmbed::U32FromBits)),
        (embed_key(FlatEmbed::U16FromBits, module), SymbolView::Flat(FlatEmbed::U16FromBits)),
        (embed_key(FlatEmbed::U8FromBits, module), SymbolView::Flat(FlatEmbed::U8FromBits)),
        (embed_key(FlatEmbed::U32ToBits, module), SymbolView::Flat(FlatEmbed::U32ToBits)),
        (embed_key(FlatEmbed::U16ToBits, module), SymbolView::Flat(FlatEmbed::U16ToBits)),
        (embed_key(FlatEmbed::U8ToBits, module), SymbolView::Flat(FlatEmbed::U8ToBits)),
    ]
}

fn bits(n: u32) -> (r: Type)
    ensures
        r@ == bits_type(n),
{
    let r = Type::Array(Box::new(Type::Boolean), Size::Value(n));
    assert(r@ == bits_type(n)) by {
        reveal_with_fuel(type_view, 2);
    }
    r
}

fn one(t: Type) -> (r: Vec<Type>)
    ensures
        views(r@) == seq![t@],
{
    let mut v: Vec<Type> = Vec::new();
    v.push(t);
    assert(views(v@) =~= seq![t@]);
    v
}

impl FlatEmbed {
    /// The key of the primitive in a module.
    pub fn key_in_module(&self, module: &String) -> (r: FunctionKey)
        ensures
            r@ == embed_key(*self, module@),
    {
        let (id, inputs, outputs) = match self {
            FlatEmbed::Unpack(n) => ("_UNPACK", one(Type::FieldElement), one(bits(*n))),
            FlatEmbed::U8ToBits => ("_U8_TO_BITS", one(Type::Uint(UBitwidth::B8)), one(bits(8))),
            FlatEmbed::U16ToBits => (
                "_U16_TO_BITS",
                one(Type::Uint(UBitwidth::B16)),
                one(bits(16)),
            ),
            FlatEmbed::U32ToBits => (
                "_U32_TO_BITS",
                one(Type::Uint(UBitwidth::B32)),
                one(bits(32)),
            ),
            FlatEmbed::U8FromBits => (
                "_U8_FROM_BITS",
                one(bits(8)),
                one(Type::Uint(UBitwidth::B8)),
            ),
            FlatEmbed::U16FromBits => (
                "_U16_FROM_BITS",
                one(bits(16)),
                one(Type::Uint(UBitwidth::B16)),
            ),
            FlatEmbed::U32FromBits => (
                "_U32_FROM_BITS",
                one(bits(32)),
                one(Type::Uint(UBitwidth::B32)),
            ),
        };
        FunctionKey {
            module: module.clone(),
            id: String::from_str(id),
            signature: Signature { inputs, outputs },
        }
    }
}

/// The primitives of a module over a field of `field_bits` bits, by key:
/// the unpacking of a field element, and the conversions between unsigned
/// integers of 32, 16 and 8 bits and their bits.
pub fn embeds_in_module(module_id: &String, field_bits: u32) -> (r: Vec<
    (FunctionKey, TypedFunctionSymbol),
>)
    ensures
        views(r@) == embed_entries(module_id@, field_bits),
{
    let unpack = FlatEmbed::Unpack(field_bits);
    let mut out: Vec<(FunctionKey, TypedFunctionSymbol)> = Vec::new();
    out.push((unpack.key_in_module(module_id), TypedFunctionSymbol::Flat(unpack)));
    out.push(
        (
            FlatEmbed::U32FromBits.key_in_module(module_id),
            TypedFunctionSymbol::Flat(FlatEmbed::U32FromBits),
        ),
    );
    out.push(
        (
            FlatEmbed::U16FromBits.key_in_module(module_id),
            TypedFunctionSymbol::Flat(FlatEmbed::U16FromBits),
        ),
    );
    out.push(
        (
            FlatEmbed::U8FromBits.key_in_module(module_id),
            TypedFunctionSymbol::Flat(FlatEmbed::U8FromBits),
        ),
    );
    out.push(
        (
            FlatEmbed::U32ToBits.key_in_module(module_id),
            TypedFunctionSymbol::Flat(FlatEmbed::U32ToBits),
        ),
    );
    out.push(
        (
            FlatEmbed::U16ToBits.key_in_module(module_id),
            TypedFunctionSymbol::Flat(FlatEmbed::U16ToBits),
        ),
    );
    out.push(
        (
            FlatEmbed::U8ToBits.key_in_module(module_id),
            TypedFunctionSymbol::Flat(FlatEmbed::U8ToBits),
        ),
    );
    assert(views(out@) =~= embed_entries(module_id@, field_bits));
    out
}

} // verus!
