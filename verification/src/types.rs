//! Core identifiers: accounts, collections, document ids, and the packed
//! JMAP id that carries a prefix (thread or parent) in its upper half.

use vstd::prelude::*;

verus! {

pub type AccountId = u32;

pub type DocumentId = u32;

pub type JMAPId = u64;

pub type ChangeId = u64;

pub type FieldId = u8;

/// Typed containers within an account.
#[derive(Debug, Clone, Copy, PartialEq, Eq, Hash, Structural)]
pub enum Collection {
    Principal,
    PushSubscription,
    Mail,
    Mailbox,
    Thread,
    Identity,
    EmailSubmission,
    VacationResponse,
    Invalid,
}

impl Collection {
    /// Tag byte used in serialized keys and change-log payloads.
    pub fn to_u8(&self) -> (r: u8)
        ensures
            r == spec_collection_u8(*self),
    {
        match self {
            Collection::Principal => 0,
            Collection::PushSubscription => 1,
            Collection::Mail => 2,
            Collection::Mailbox => 3,
            Collection::Thread => 4,
            Collection::Identity => 5,
            Collection::EmailSubmission => 6,
            Collection::VacationResponse => 7,
            Collection::Invalid => 8,
        }
    }

    /// Inverse of `to_u8`; unknown tags map to `None`.
    pub fn from_u8(v: u8) -> (r: Self)
        ensures
            r == spec_collection_from_u8(v),
    {
        match v {
            0 => Collection::Principal,
            1 => Collection::PushSubscription,
            2 => Collection::Mail,
            3 => Collection::Mailbox,
            4 => Collection::Thread,
            5 => Collection::Identity,
            6 => Collection::EmailSubmission,
            7 => Collection::VacationResponse,
            _ => Collection::Invalid,
        }
    }
}

pub open spec fn spec_collection_u8(c: Collection) -> u8 {
    match c {
        Collection::Principal => 0,
        Collection::PushSubscription => 1,
        Collection::Mail => 2,
        Collection::Mailbox => 3,
        Collection::Thread => 4,
        Collection::Identity => 5,
        Collection::EmailSubmission => 6,
        Collection::VacationResponse => 7,
        Collection::Invalid => 8,
    }
}

pub open spec fn spec_collection_from_u8(v: u8) -> Collection {
    match v {
        0u8 => Collection::Principal,
        1u8 => Collection::PushSubscription,
        2u8 => Collection::Mail,
        3u8 => Collection::Mailbox,
        4u8 => Collection::Thread,
        5u8 => Collection::Identity,
        6u8 => Collection::EmailSubmission,
        7u8 => Collection::VacationResponse,
        _ => Collection::Invalid,
    }
}

/// Round trip: every collection tag decodes back to the collection.
pub proof fn lemma_collection_u8_round_trip(c: Collection)
    ensures
        spec_collection_from_u8(spec_collection_u8(c)) == c,
{
}

/// Document id carried in the lower half of a packed JMAP id.
pub open spec fn spec_document_id(id: JMAPId) -> DocumentId {
    (id % 0x1_0000_0000) as DocumentId
}

/// Prefix (thread or parent) id carried in the upper half.
pub open spec fn spec_prefix_id(id: JMAPId) -> DocumentId {
    (id / 0x1_0000_0000) as DocumentId
}

/// The packed id with the given halves.
pub open spec fn spec_from_parts(prefix: DocumentId, doc: DocumentId) -> JMAPId {
    (prefix * 0x1_0000_0000 + doc) as JMAPId
}

pub fn get_document_id(id: JMAPId) -> (r: DocumentId)
    ensures
        r == spec_document_id(id),
{
    assert((id & 0xFFFF_FFFFu64) == id % 0x1_0000_0000) by (bit_vector);
    (id & 0xFFFF_FFFF) as u32
}

pub fn get_prefix_id(id: JMAPId) -> (r: DocumentId)
    ensures
        r == spec_prefix_id(id),
{
    assert((id >> 32u64) == id / 0x1_0000_0000) by (bit_vector);
    (id >> 32) as u32
}

pub fn from_parts(prefix: DocumentId, doc: DocumentId) -> (r: JMAPId)
    ensures
        r == spec_from_parts(prefix, doc),
        spec_document_id(r) == doc,
        spec_prefix_id(r) == prefix,
{
    let r = ((prefix as u64) << 32) | (doc as u64);
    assert(((prefix as u64) << 32u64) | (doc as u64) == (prefix as u64) * 0x1_0000_0000 + (
    doc as u64)) by (bit_vector);
    assert(r % 0x1_0000_0000 == doc && r / 0x1_0000_0000 == prefix) by {
        vstd::arithmetic::div_mod::lemma_fundamental_div_mod_converse(
            r as int,
            0x1_0000_0000,
            prefix as int,
            doc as int,
        );
    }
    r
}

/// Object types whose per-account state is pushed to clients.
#[derive(Debug, Clone, Copy, PartialEq, Eq, Hash, Structural)]
pub enum TypeState {
    Email,
    EmailDelivery,
    EmailSubmission,
    Mailbox,
    Thread,
    Identity,
    Invalid,
}

pub open spec fn spec_type_state_u64(t: TypeState) -> u64 {
    match t {
        TypeState::Email => 0,
        TypeState::EmailDelivery => 1,
        TypeState::EmailSubmission => 2,
        TypeState::Mailbox => 3,
        TypeState::Thread => 4,
        TypeState::Identity => 5,
        TypeState::Invalid => 6,
    }
}

pub open spec fn spec_type_state_from_u64(v: u64) -> TypeState {
    match v {
        0u64 => TypeState::Email,
        1u64 => TypeState::EmailDelivery,
        2u64 => TypeState::EmailSubmission,
        3u64 => TypeState::Mailbox,
        4u64 => TypeState::Thread,
        5u64 => TypeState::Identity,
        _ => TypeState::Invalid,
    }
}

/// The spellings used on the wire for each pushed object type.
pub open spec fn spec_type_state_name(t: TypeState) -> Seq<char> {
    match t {
        TypeState::Email => "Email"@,
        TypeState::EmailDelivery => "EmailDelivery"@,
        TypeState::EmailSubmission => "EmailSubmission"@,
        TypeState::Mailbox => "Mailbox"@,
        TypeState::Thread => "Thread"@,
        TypeState::Identity => "Identity"@,
        TypeState::Invalid => Seq::<char>::empty(),
    }
}

impl TypeState {
    pub fn from_u64(value: u64) -> (r: Self)
        ensures
            r == spec_type_state_from_u64(value),
    {
        match value {
            0 => TypeState::Email,
            1 => TypeState::EmailDelivery,
            2 => TypeState::EmailSubmission,
            3 => TypeState::Mailbox,
            4 => TypeState::Thread,
            5 => TypeState::Identity,
            _ => TypeState::Invalid,
        }
    }

    pub fn to_u64(&self) -> (r: u64)
        ensures
            r == spec_type_state_u64(*self),
    {
        match self {
            TypeState::Email => 0,
            TypeState::EmailDelivery => 1,
            TypeState::EmailSubmission => 2,
            TypeState::Mailbox => 3,
            TypeState::Thread => 4,
            TypeState::Identity => 5,
            TypeState::Invalid => 6,
        }
    }

    /// Largest tag value, the `None` sentinel.
    pub fn max() -> (r: u64)
        ensures
            r == spec_type_state_u64(TypeState::Invalid),
    {
        6
    }

    pub fn is_valid(&self) -> (r: bool)
        ensures
            r == (*self != TypeState::Invalid),
    {
        !matches!(self, TypeState::Invalid)
    }

    /// Parse a wire spelling; anything unknown maps to `None`.
    pub fn parse(value: &str) -> (r: Self)
        ensures
            r == (if value@ == "Email"@ {
                TypeState::Email
            } else if value@ == "EmailDelivery"@ {
                TypeState::EmailDelivery
            } else if value@ == "EmailSubmission"@ {
                TypeState::EmailSubmission
            } else if value@ == "Mailbox"@ {
                TypeState::Mailbox
            } else if value@ == "Thread"@ {
                TypeState::Thread
            } else if value@ == "Identity"@ {
                TypeState::Identity
            } else {
                TypeState::Invalid
            }),
    {
        if crate::strutil::str_eq(value, "Email") {
            TypeState::Email
        } else if crate::strutil::str_eq(value, "EmailDelivery") {
            TypeState::EmailDelivery
        } else if crate::strutil::str_eq(value, "EmailSubmission") {
            TypeState::EmailSubmission
        } else if crate::strutil::str_eq(value, "Mailbox") {
            TypeState::Mailbox
        } else if crate::strutil::str_eq(value, "Thread") {
            TypeState::Thread
        } else if crate::strutil::str_eq(value, "Identity") {
            TypeState::Identity
        } else {
            TypeState::Invalid
        }
    }

    /// Pushed state object type for a collection, where one exists.
    pub fn try_from_collection(value: Collection) -> (r: Result<Self, ()>)
        ensures
            value == Collection::Mail ==> r == Result::<TypeState, ()>::Ok(TypeState::Email),
            value == Collection::Mailbox ==> r == Result::<TypeState, ()>::Ok(TypeState::Mailbox),
            value == Collection::Thread ==> r == Result::<TypeState, ()>::Ok(TypeState::Thread),
            value == Collection::Identity ==> r == Result::<TypeState, ()>::Ok(TypeState::Identity),
            value == Collection::EmailSubmission ==> r == Result::<TypeState, ()>::Ok(
                TypeState::EmailSubmission,
            ),
            !(value == Collection::Mail || value == Collection::Mailbox || value
                == Collection::Thread || value == Collection::Identity || value
                == Collection::EmailSubmission) ==> r == Result::<TypeState, ()>::Err(()),
    {
        match value {
            Collection::Mail => Ok(TypeState::Email),
            Collection::Mailbox => Ok(TypeState::Mailbox),
            Collection::Thread => Ok(TypeState::Thread),
            Collection::Identity => Ok(TypeState::Identity),
            Collection::EmailSubmission => Ok(TypeState::EmailSubmission),
            _ => Err(()),
        }
    }

    /// Wire spelling of this object type.
    pub fn name(&self) -> (r: String)
        ensures
            r@ == spec_type_state_name(*self),
    {
        match self {
            TypeState::Email => String::from_str("Email"),
            TypeState::EmailDelivery => String::from_str("EmailDelivery"),
            TypeState::EmailSubmission => String::from_str("EmailSubmission"),
            TypeState::Mailbox => String::from_str("Mailbox"),
            TypeState::Thread => String::from_str("Thread"),
            TypeState::Identity => String::from_str("Identity"),
            TypeState::Invalid => String::new(),
        }
    }
}

} // verus!
