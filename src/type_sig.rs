//! Type signatures stored in object headers, and the kinds they stand for.
use vstd::prelude::*;

verus! {

pub const SIG_NAT: usize = 1;
pub const SIG_INT: usize = 2;
pub const SIG_DOUBLE: usize = 3;
pub const SIG_CHAR: usize = 4;
pub const SIG_BOOL: usize = 5;
pub const SIG_REFERENCE: usize = 6;
pub const SIG_PRODUCT: usize = 7;
pub const SIG_RECORD: usize = 8;
pub const SIG_SUM: usize = 9;

/// The kind of a value: five scalar kinds, references, and three composites.
#[derive(Debug, Clone, Copy, PartialEq, Eq, Structural)]
pub enum TypeKind {
    Nat,
    Int,
    Reference,
    Double,
    Char,
    Bool,
    Product,
    Record,
    Sum,
}

/// The signature word of each kind.
pub open spec fn kind_sig(k: TypeKind) -> usize {
    match k {
        TypeKind::Nat => SIG_NAT,
        TypeKind::Int => SIG_INT,
        TypeKind::Double => SIG_DOUBLE,
        TypeKind::Char => SIG_CHAR,
        TypeKind::Bool => SIG_BOOL,
        TypeKind::Reference => SIG_REFERENCE,
        TypeKind::Product => SIG_PRODUCT,
        TypeKind::Record => SIG_RECORD,
        TypeKind::Sum => SIG_SUM,
    }
}

/// A signature word names a kind exactly when it lies in `SIG_NAT..=SIG_SUM`.
pub open spec fn sig_valid(sig: usize) -> bool {
    SIG_NAT <= sig <= SIG_SUM
}

/// The kind named by a valid signature word.
pub open spec fn sig_kind(sig: usize) -> TypeKind
    recommends
        sig_valid(sig),
{
    if sig == SIG_NAT {
        TypeKind::Nat
    } else if sig == SIG_INT {
        TypeKind::Int
    } else if sig == SIG_DOUBLE {
        TypeKind::Double
    } else if sig == SIG_CHAR {
        TypeKind::Char
    } else if sig == SIG_BOOL {
        TypeKind::Bool
    } else if sig == SIG_REFERENCE {
        TypeKind::Reference
    } else if sig == SIG_PRODUCT {
        TypeKind::Product
    } else if sig == SIG_RECORD {
        TypeKind::Record
    } else {
        TypeKind::Sum
    }
}

/// A kind that fits in a single payload slot.
pub open spec fn is_primitive(k: TypeKind) -> bool {
    !(k is Product || k is Record || k is Sum)
}

impl TypeKind {
    pub fn to_type_sig(&self) -> (r: usize)
        ensures
            r == kind_sig(*self),
            sig_valid(r),
    {
        match self {
            TypeKind::Nat => SIG_NAT,
            TypeKind::Int => SIG_INT,
            TypeKind::Reference => SIG_REFERENCE,
            TypeKind::Double => SIG_DOUBLE,
            TypeKind::Char => SIG_CHAR,
            TypeKind::Bool => SIG_BOOL,
            TypeKind::Product => SIG_PRODUCT,
            TypeKind::Record => SIG_RECORD,
            TypeKind::Sum => SIG_SUM,
        }
    }

    pub fn is_primitive(&self) -> (r: bool)
        ensures
            r == is_primitive(*self),
    {
        match self {
            TypeKind::Product | TypeKind::Record | TypeKind::Sum => false,
            _ => true,
        }
    }
}

/// Namespace for operations on signature words.
pub struct TypeSig;

impl TypeSig {
    pub fn within_valid_range(sig: usize) -> (r: bool)
        ensures
            r == sig_valid(sig),
    {
        SIG_NAT <= sig && sig <= SIG_SUM
    }

    pub fn type_sig_to_string(sig: usize) -> (r: &'static str)
        requires
            sig_valid(sig),
        ensures
            r@ == sig_name(sig),
    {
        if sig == SIG_NAT {
            "Nat"
        } else if sig == SIG_INT {
            "Int"
        } else if sig == SIG_DOUBLE {
            "Double"
        } else if sig == SIG_CHAR {
            "Char"
        } else if sig == SIG_BOOL {
            "Bool"
        } else if sig == SIG_REFERENCE {
            "Reference"
        } else if sig == SIG_PRODUCT {
            "$Product"
        } else if sig == SIG_RECORD {
            "$Record"
        } else {
            "$Sum"
        }
    }

    pub fn to_type_kind(sig: usize) -> (r: TypeKind)
        requires
            sig_valid(sig),
        ensures
            r == sig_kind(sig),
            kind_sig(r) == sig,
    {
        if sig == SIG_NAT {
            TypeKind::Nat
        } else if sig == SIG_INT {
            TypeKind::Int
        } else if sig == SIG_DOUBLE {
            TypeKind::Double
        } else if sig == SIG_CHAR {
            TypeKind::Char
        } else if sig == SIG_BOOL {
            TypeKind::Bool
        } else if sig == SIG_REFERENCE {
            TypeKind::Reference
        } else if sig == SIG_PRODUCT {
            TypeKind::Product
        } else if sig == SIG_RECORD {
            TypeKind::Record
        } else {
            TypeKind::Sum
        }
    }
}

/// The display name of each signature word.
pub open spec fn sig_name(sig: usize) -> Seq<char> {
    if sig == SIG_NAT {
        "Nat"@
    } else if sig == SIG_INT {
        "Int"@
    } else if sig == SIG_DOUBLE {
        "Double"@
    } else if sig == SIG_CHAR {
        "Char"@
    } else if sig == SIG_BOOL {
        "Bool"@
    } else if sig == SIG_REFERENCE {
        "Reference"@
    } else if sig == SIG_PRODUCT {
        "$Product"@
    } else if sig == SIG_RECORD {
        "$Record"@
    } else {
        "$Sum"@
    }
}

} // verus!
