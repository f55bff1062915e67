//! The closed enumeration of semantic types an entry can carry.

use vstd::prelude::*;
use crate::error::Error;
use crate::text::bytes_eq;

verus! {

/// Semantic type tag of a directory entry.
#[derive(Clone, Copy, PartialEq, Eq, Structural, Debug, Hash)]
pub enum ObjectClass {
    /// The root of the namespace.
    Root,
    /// A DNS domain.
    Domain,
    /// An organizational unit.
    Ou,
    /// A person.
    Person,
    /// A host.
    Host,
    /// A stored credential.
    Credential,
}

/// The durable byte tag of an object class.
pub open spec fn objectclass_bytes(oc: ObjectClass) -> Seq<u8> {
    match oc {
        ObjectClass::Root => seq![0x72u8, 0x6fu8, 0x6fu8, 0x74u8],
        ObjectClass::Domain => seq![0x64u8, 0x6fu8, 0x6du8, 0x61u8, 0x69u8, 0x6eu8],
        ObjectClass::Ou => seq![0x6fu8, 0x75u8],
        ObjectClass::Person => seq![0x70u8, 0x65u8, 0x72u8, 0x73u8, 0x6fu8, 0x6eu8],
        ObjectClass::Host => seq![0x68u8, 0x6fu8, 0x73u8, 0x74u8],
        ObjectClass::Credential => seq![0x63u8, 0x72u8, 0x65u8, 0x64u8, 0x65u8, 0x6eu8, 0x74u8, 0x69u8, 0x61u8, 0x6cu8],
    }
}

/// The object class a durable byte tag denotes, if any.
pub open spec fn objectclass_from_bytes(s: Seq<u8>) -> Option<ObjectClass> {
    if s == objectclass_bytes(ObjectClass::Root) {
        Some(ObjectClass::Root)
    } else if s == objectclass_bytes(ObjectClass::Domain) {
        Some(ObjectClass::Domain)
    } else if s == objectclass_bytes(ObjectClass::Ou) {
        Some(ObjectClass::Ou)
    } else if s == objectclass_bytes(ObjectClass::Person) {
        Some(ObjectClass::Person)
    } else if s == objectclass_bytes(ObjectClass::Host) {
        Some(ObjectClass::Host)
    } else if s == objectclass_bytes(ObjectClass::Credential) {
        Some(ObjectClass::Credential)
    } else {
        None
    }
}

/// Decoding inverts encoding over the closed enumeration.
pub broadcast proof fn lemma_objectclass_roundtrip(oc: ObjectClass)
    ensures
        objectclass_from_bytes(#[trigger] objectclass_bytes(oc)) == Some(oc),
{
    match oc {
        ObjectClass::Root => {},
        ObjectClass::Domain => {
            assert(objectclass_bytes(ObjectClass::Domain) != objectclass_bytes(ObjectClass::Root));
        },
        ObjectClass::Ou => {
            assert(objectclass_bytes(ObjectClass::Ou) != objectclass_bytes(ObjectClass::Root));
            assert(objectclass_bytes(ObjectClass::Ou) != objectclass_bytes(ObjectClass::Domain));
        },
        ObjectClass::Person => {
            assert(objectclass_bytes(ObjectClass::Person) != objectclass_bytes(ObjectClass::Root));
            assert(objectclass_bytes(ObjectClass::Person) != objectclass_bytes(
                ObjectClass::Domain,
            ));
            assert(objectclass_bytes(ObjectClass::Person) != objectclass_bytes(ObjectClass::Ou));
        },
        ObjectClass::Host => {
            assert(objectclass_bytes(ObjectClass::Host) != objectclass_bytes(ObjectClass::Root));
            assert(objectclass_bytes(ObjectClass::Host) != objectclass_bytes(ObjectClass::Domain));
            assert(objectclass_bytes(ObjectClass::Host) != objectclass_bytes(ObjectClass::Ou));
            assert(objectclass_bytes(ObjectClass::Host) != objectclass_bytes(ObjectClass::Person));
        },
        ObjectClass::Credential => {
            assert(objectclass_bytes(ObjectClass::Credential) != objectclass_bytes(
                ObjectClass::Root,
            ));
            assert(objectclass_bytes(ObjectClass::Credential) != objectclass_bytes(
                ObjectClass::Domain,
            ));
            assert(objectclass_bytes(ObjectClass::Credential) != objectclass_bytes(
                ObjectClass::Ou,
            ));
            assert(objectclass_bytes(ObjectClass::Credential) != objectclass_bytes(
                ObjectClass::Person,
            ));
            assert(objectclass_bytes(ObjectClass::Credential) != objectclass_bytes(
                ObjectClass::Host,
            ));
        },
    }
}

impl ObjectClass {
    /// Encode this object class as its durable byte tag.
    pub fn as_bytes(&self) -> (r: Vec<u8>)
        ensures
            r@ == objectclass_bytes(*self),
    {
        let r: Vec<u8> = match self {
            ObjectClass::Root => vec![0x72u8, 0x6fu8, 0x6fu8, 0x74u8],
            ObjectClass::Domain => vec![0x64u8, 0x6fu8, 0x6du8, 0x61u8, 0x69u8, 0x6eu8],
            ObjectClass::Ou => vec![0x6fu8, 0x75u8],
            ObjectClass::Person => vec![0x70u8, 0x65u8, 0x72u8, 0x73u8, 0x6fu8, 0x6eu8],
            ObjectClass::Host => vec![0x68u8, 0x6fu8, 0x73u8, 0x74u8],
            ObjectClass::Credential => vec![
                0x63u8,
                0x72u8,
                0x65u8,
                0x64u8,
                0x65u8,
                0x6eu8,
                0x74u8,
                0x69u8,
                0x61u8,
                0x6cu8,
            ],
        };
        proof {
            assert(r@ =~= objectclass_bytes(*self));
        }
        r
    }

    /// Decode an object class from its durable byte tag; `Serialize` when
    /// the bytes denote none.
    pub fn from_bytes(bytes: &[u8]) -> (r: Result<ObjectClass, Error>)
        ensures
            match r {
                Ok(oc) => objectclass_from_bytes(bytes@) == Some(oc),
                Err(e) => e == Error::Serialize && objectclass_from_bytes(bytes@) is None,
            },
    {
        if bytes_eq(bytes, ObjectClass::Root.as_bytes().as_slice()) {
            Ok(ObjectClass::Root)
        } else if bytes_eq(bytes, ObjectClass::Domain.as_bytes().as_slice()) {
            Ok(ObjectClass::Domain)
        } else if bytes_eq(bytes, ObjectClass::Ou.as_bytes().as_slice()) {
            Ok(ObjectClass::Ou)
        } else if bytes_eq(bytes, ObjectClass::Person.as_bytes().as_slice()) {
            Ok(ObjectClass::Person)
        } else if bytes_eq(bytes, ObjectClass::Host.as_bytes().as_slice()) {
            Ok(ObjectClass::Host)
        } else if bytes_eq(bytes, ObjectClass::Credential.as_bytes().as_slice()) {
            Ok(ObjectClass::Credential)
        } else {
            Err(Error::Serialize)
        }
    }
}

} // verus!
