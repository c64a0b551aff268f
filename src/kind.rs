use vstd::prelude::*;

verus! {

/// The eight kinds of value that the format can hold; the order of the variants
/// gives each kind its three-bit tag.
#[derive(Clone, Copy, Debug, PartialEq, Eq, Structural)]
pub enum Type {
    String,
    Buffer,
    Integer,
    Double,
    Array,
    Object,
    Boolnull,
    Reserved,
}

/// The three-bit tag that a kind carries in the low bits of a header.
pub open spec fn tag_of(t: Type) -> nat {
    match t {
        Type::String => 0,
        Type::Buffer => 1,
        Type::Integer => 2,
        Type::Double => 3,
        Type::Array => 4,
        Type::Object => 5,
        Type::Boolnull => 6,
        Type::Reserved => 7,
    }
}

/// The kind whose tag is `bits` (taken modulo 8).
pub open spec fn type_of_tag(bits: nat) -> Type {
    let b = bits % 8;
    if b == 0 {
        Type::String
    } else if b == 1 {
        Type::Buffer
    } else if b == 2 {
        Type::Integer
    } else if b == 3 {
        Type::Double
    } else if b == 4 {
        Type::Array
    } else if b == 5 {
        Type::Object
    } else if b == 6 {
        Type::Boolnull
    } else {
        Type::Reserved
    }
}

impl Type {
    /// The tag of this kind.
    pub fn tag(&self) -> (r: u8)
        ensures
            r as nat == tag_of(*self),
    {
        match self {
            Type::String => 0,
            Type::Buffer => 1,
            Type::Integer => 2,
            Type::Double => 3,
            Type::Array => 4,
            Type::Object => 5,
            Type::Boolnull => 6,
            Type::Reserved => 7,
        }
    }

    /// The kind held in the low three bits of `bits`.
    pub fn from_tag(bits: u64) -> (t: Type)
        ensures
            t == type_of_tag(bits as nat),
            tag_of(t) == bits as nat % 8,
    {
        let b = bits % 8;
        if b == 0 {
            Type::String
        } else if b == 1 {
            Type::Buffer
        } else if b == 2 {
            Type::Integer
        } else if b == 3 {
            Type::Double
        } else if b == 4 {
            Type::Array
        } else if b == 5 {
            Type::Object
        } else if b == 6 {
            Type::Boolnull
        } else {
            Type::Reserved
        }
    }
}

/// Native values that map onto one kind of the format.
pub trait Typed {
    spec fn spec_type(&self) -> Type;

    /// The kind under which a value of this type is written.
    fn to_type(&self) -> (t: Type)
        ensures
            t == self.spec_type(),
    ;
}

impl Typed for String {
    open spec fn spec_type(&self) -> Type {
        Type::String
    }

    fn to_type(&self) -> (t: Type) {
        Type::String
    }
}

impl Typed for Vec<u8> {
    open spec fn spec_type(&self) -> Type {
        Type::Buffer
    }

    fn to_type(&self) -> (t: Type) {
        Type::Buffer
    }
}

impl Typed for i32 {
    open spec fn spec_type(&self) -> Type {
        Type::Integer
    }

    fn to_type(&self) -> (t: Type) {
        Type::Integer
    }
}

impl<T> Typed for [T] {
    open spec fn spec_type(&self) -> Type {
        Type::Array
    }

    fn to_type(&self) -> (t: Type) {
        Type::Array
    }
}

impl<K, V> Typed for std::collections::HashMap<K, V> {
    open spec fn spec_type(&self) -> Type {
        Type::Object
    }

    fn to_type(&self) -> (t: Type) {
        Type::Object
    }
}

impl Typed for Option<bool> {
    open spec fn spec_type(&self) -> Type {
        Type::Boolnull
    }

    fn to_type(&self) -> (t: Type) {
        Type::Boolnull
    }
}

} // verus!
