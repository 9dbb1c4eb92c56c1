//! Mailbox objects: their typed property values, property names, and the
//! rights mask shown to owners and to shared accounts.

use vstd::prelude::*;

use crate::bitmap;
use crate::store::{
    bm_rows_get, spec_bm_row, spec_opt_bytes, spec_val_row, val_rows_get, BitmapKey, BitmapKind,
    JMAPStore, ValueKey, ValueKind,
};
use crate::types::{AccountId, Collection, DocumentId, JMAPId};

verus! {

use vstd::string::StringExecFns;

/// A typed property value of a mailbox.
#[derive(Debug, Clone, PartialEq, Eq)]
pub enum Value {
    Id { value: JMAPId },
    Text { value: String },
    Bool { value: bool },
    Number { value: u32 },
    Subscriptions { value: Vec<u32> },
    MailboxRights { value: MailboxRights },
    Null,
}

impl Value {
    pub fn unwrap_text(self) -> (r: Option<String>)
        ensures
            match self {
                Value::Text { value } => r matches Some(v) && v@ == value@,
                _ => r is None,
            },
    {
        match self {
            Value::Text { value } => Some(value),
            _ => None,
        }
    }

    pub fn unwrap_number(self) -> (r: Option<u32>)
        ensures
            r == (match self {
                Value::Number { value } => Some(value),
                _ => Option::<u32>::None,
            }),
    {
        match self {
            Value::Number { value } => Some(value),
            _ => None,
        }
    }

    pub fn unwrap_id(self) -> (r: Option<JMAPId>)
        ensures
            r == (match self {
                Value::Id { value } => Some(value),
                _ => Option::<JMAPId>::None,
            }),
    {
        match self {
            Value::Id { value } => Some(value),
            _ => None,
        }
    }

    pub fn as_text(&self) -> (r: Option<&str>)
        ensures
            match self {
                Value::Text { value } => r matches Some(v) && v@ == value@,
                _ => r is None,
            },
    {
        match self {
            Value::Text { value } => Some(value.as_str()),
            _ => None,
        }
    }

    pub fn as_number(&self) -> (r: Option<u32>)
        ensures
            r == (match self {
                Value::Number { value } => Some(*value),
                _ => Option::<u32>::None,
            }),
    {
        match self {
            Value::Number { value } => Some(*value),
            _ => None,
        }
    }

    pub fn as_id(&self) -> (r: Option<u64>)
        ensures
            r == (match self {
                Value::Id { value } => Some(*value),
                _ => Option::<u64>::None,
            }),
    {
        match self {
            Value::Id { value } => Some(*value),
            _ => None,
        }
    }

    pub fn is_empty(&self) -> (r: bool)
        ensures
            r == (match self {
                Value::Text { value } => value@.len() == 0,
                Value::Null => true,
                _ => false,
            }),
    {
        match self {
            Value::Text { value } => value.as_str().is_empty(),
            Value::Null => true,
            _ => false,
        }
    }
}

/// A mailbox: its property bag.
#[derive(Debug, Clone, PartialEq, Eq)]
pub struct Mailbox {
    pub properties: Vec<(Property, Value)>,
}

/// The mailbox properties.
#[derive(Debug, Clone, Copy, PartialEq, Eq, Hash, Structural)]
pub enum Property {
    Id,
    Name,
    ParentId,
    Role,
    SortOrder,
    TotalEmails,
    UnreadEmails,
    TotalThreads,
    UnreadThreads,
    MyRights,
    IsSubscribed,
    ACL,
    Invalid,
}

impl Property {
    /// Parse a wire property name; anything unknown maps to `Invalid`.
    pub fn parse(value: &str) -> (r: Self)
        ensures
            r == (if value@ == "id"@ {
                Property::Id
            } else if value@ == "name"@ {
                Property::Name
            } else if value@ == "parentId"@ {
                Property::ParentId
            } else if value@ == "role"@ {
                Property::Role
            } else if value@ == "sortOrder"@ {
                Property::SortOrder
            } else if value@ == "isSubscribed"@ {
                Property::IsSubscribed
            } else if value@ == "totalEmails"@ {
                Property::TotalEmails
            } else if value@ == "unreadEmails"@ {
                Property::UnreadEmails
            } else if value@ == "totalThreads"@ {
                Property::TotalThreads
            } else if value@ == "unreadThreads"@ {
                Property::UnreadThreads
            } else if value@ == "myRights"@ {
                Property::MyRights
            } else if value@ == "acl"@ {
                Property::ACL
            } else {
                Property::Invalid
            }),
    {
        let r = if crate::strutil::str_eq(value, "id") {
            Property::Id
        } else if crate::strutil::str_eq(value, "name") {
            Property::Name
        } else if crate::strutil::str_eq(value, "parentId") {
            Property::ParentId
        } else if crate::strutil::str_eq(value, "role") {
            Property::Role
        } else if crate::strutil::str_eq(value, "sortOrder") {
            Property::SortOrder
        } else if crate::strutil::str_eq(value, "isSubscribed") {
            Property::IsSubscribed
        } else if crate::strutil::str_eq(value, "totalEmails") {
            Property::TotalEmails
        } else if crate::strutil::str_eq(value, "unreadEmails") {
            Property::UnreadEmails
        } else if crate::strutil::str_eq(value, "totalThreads") {
            Property::TotalThreads
        } else if crate::strutil::str_eq(value, "unreadThreads") {
            Property::UnreadThreads
        } else if crate::strutil::str_eq(value, "myRights") {
            Property::MyRights
        } else if crate::strutil::str_eq(value, "acl") {
            Property::ACL
        } else {
            Property::Invalid
        };
        r
    }

    /// Field id of a property, as used in keys.
    pub fn to_field(&self) -> (r: u8)
        ensures
            r == spec_property_field(*self),
    {
        match self {
            Property::Id => 0,
            Property::Name => 1,
            Property::ParentId => 2,
            Property::Role => 3,
            Property::SortOrder => 4,
            Property::TotalEmails => 5,
            Property::UnreadEmails => 6,
            Property::TotalThreads => 7,
            Property::UnreadThreads => 8,
            Property::MyRights => 9,
            Property::IsSubscribed => 10,
            Property::ACL => 11,
            Property::Invalid => 12,
        }
    }

    /// Inverse of `to_field`; unknown ids map to `Invalid`.
    pub fn from_field(field: u8) -> (r: Self)
        ensures
            field == spec_property_field(r) || r == Property::Invalid,
            spec_property_field(r) != 12 ==> field == spec_property_field(r),
    {
        match field {
            0 => Property::Id,
            1 => Property::Name,
            2 => Property::ParentId,
            3 => Property::Role,
            4 => Property::SortOrder,
            5 => Property::TotalEmails,
            6 => Property::UnreadEmails,
            7 => Property::TotalThreads,
            8 => Property::UnreadThreads,
            9 => Property::MyRights,
            10 => Property::IsSubscribed,
            11 => Property::ACL,
            _ => Property::Invalid,
        }
    }
}

pub open spec fn spec_property_field(p: Property) -> u8 {
    match p {
        Property::Id => 0,
        Property::Name => 1,
        Property::ParentId => 2,
        Property::Role => 3,
        Property::SortOrder => 4,
        Property::TotalEmails => 5,
        Property::UnreadEmails => 6,
        Property::TotalThreads => 7,
        Property::UnreadThreads => 8,
        Property::MyRights => 9,
        Property::IsSubscribed => 10,
        Property::ACL => 11,
        Property::Invalid => 12,
    }
}

/// Rights over a shared or owned mailbox.
#[derive(Debug, Clone, Copy, PartialEq, Eq, Structural)]
pub struct MailboxRights {
    pub may_read_items: bool,
    pub may_add_items: bool,
    pub may_remove_items: bool,
    pub may_set_seen: bool,
    pub may_set_keywords: bool,
    pub may_create_child: bool,
    pub may_rename: bool,
    pub may_delete: bool,
    pub may_submit: bool,
}

/// The rights of a shared mailbox come from granted ACL bits.
#[derive(Debug, Clone, Copy, PartialEq, Eq, Structural)]
pub struct AclGrants {
    pub read_items: bool,
    pub add_items: bool,
    pub remove_items: bool,
    pub modify_items: bool,
    pub create_child: bool,
    pub modify: bool,
    pub delete: bool,
    pub submit: bool,
}

impl MailboxRights {
    /// The owner of an account holds every right.
    pub fn owner() -> (r: Self)
        ensures
            r.may_read_items && r.may_add_items && r.may_remove_items && r.may_set_seen
                && r.may_set_keywords && r.may_create_child && r.may_rename && r.may_delete
                && r.may_submit,
    {
        MailboxRights {
            may_read_items: true,
            may_add_items: true,
            may_remove_items: true,
            may_set_seen: true,
            may_set_keywords: true,
            may_create_child: true,
            may_rename: true,
            may_delete: true,
            may_submit: true,
        }
    }

    /// The rights a shared account derives from its granted ACL bits; both
    /// seen and keyword edits follow the modify-items grant.
    pub fn shared(acl: AclGrants) -> (r: Self)
        ensures
            r == (MailboxRights {
                may_read_items: acl.read_items,
                may_add_items: acl.add_items,
                may_remove_items: acl.remove_items,
                may_set_seen: acl.modify_items,
                may_set_keywords: acl.modify_items,
                may_create_child: acl.create_child,
                may_rename: acl.modify,
                may_delete: acl.delete,
                may_submit: acl.submit,
            }),
    {
        MailboxRights {
            may_read_items: acl.read_items,
            may_add_items: acl.add_items,
            may_remove_items: acl.remove_items,
            may_set_seen: acl.modify_items,
            may_set_keywords: acl.modify_items,
            may_create_child: acl.create_child,
            may_rename: acl.modify,
            may_delete: acl.delete,
            may_submit: acl.submit,
        }
    }
}

/// Internal fields of mail documents, numbered above the property range.
#[derive(Debug, Clone, Copy, PartialEq, Eq, Structural)]
pub enum MessageField {
    Mailbox,
    Keyword,
    ThreadId,
}

pub open spec fn spec_message_field(f: MessageField) -> u8 {
    match f {
        MessageField::Mailbox => 128,
        MessageField::Keyword => 129,
        MessageField::ThreadId => 130,
    }
}

impl MessageField {
    pub fn to_field(&self) -> (r: u8)
        ensures
            r == spec_message_field(*self),
    {
        match self {
            MessageField::Mailbox => 128,
            MessageField::Keyword => 129,
            MessageField::ThreadId => 130,
        }
    }
}

/// Whether a requested id names a live mailbox document.
pub open spec fn spec_mailbox_found(s: &JMAPStore, account_id: AccountId, id: JMAPId) -> bool {
    id <= u32::MAX && crate::query::spec_query_live(s, account_id, Collection::Mailbox).contains(
        id as u32,
    )
}

/// The live mail documents filed in one mailbox: the mailbox tag
/// intersected with the live mail set.
pub open spec fn spec_mailbox_tag_docs(
    s: &JMAPStore,
    account_id: AccountId,
    doc: DocumentId,
) -> Set<u32> {
    spec_bm_row(
        s.bitmaps@,
        BitmapKey {
            account_id,
            collection: Collection::Mail,
            kind: BitmapKind::Tag {
                field: spec_message_field(MessageField::Mailbox),
                value: doc as u64,
            },
        },
    ).intersect(crate::query::spec_query_live(s, account_id, Collection::Mail))
}

/// The unread part of a mailbox: its documents without the seen keyword
/// (keyword tag value zero).
pub open spec fn spec_mailbox_unread_docs(
    s: &JMAPStore,
    account_id: AccountId,
    doc: DocumentId,
) -> Set<u32> {
    spec_mailbox_tag_docs(s, account_id, doc).difference(
        spec_bm_row(
            s.bitmaps@,
            BitmapKey {
                account_id,
                collection: Collection::Mail,
                kind: BitmapKind::Tag {
                    field: spec_message_field(MessageField::Keyword),
                    value: 0,
                },
            },
        ),
    )
}

/// The stored thread id bytes of one mail document.
pub open spec fn spec_thread_of(s: &JMAPStore, account_id: AccountId, d: DocumentId) -> Option<
    Seq<u8>,
> {
    spec_val_row(
        s.values@,
        ValueKey {
            account_id,
            collection: Collection::Mail,
            document_id: d,
            kind: ValueKind::Field(spec_message_field(MessageField::ThreadId)),
        },
    )
}

/// How many distinct stored thread ids a document list holds.
pub open spec fn spec_distinct_count(
    s: &JMAPStore,
    account_id: AccountId,
    docs: Seq<u32>,
) -> nat
    decreases docs.len(),
{
    if docs.len() == 0 {
        0
    } else {
        spec_distinct_count(s, account_id, docs.drop_last()) + (if exists|k: int|
            0 <= k < docs.len() - 1 && spec_thread_of(s, account_id, docs[k]) == spec_thread_of(
                s,
                account_id,
                docs.last(),
            ) {
            0nat
        } else {
            1nat
        })
    }
}

/// Whether two optional byte values hold the same bytes.
#[verifier::loop_isolation(false)]
fn opt_bytes_eq(a: &Option<Vec<u8>>, b: &Option<Vec<u8>>) -> (r: bool)
    ensures
        r == (spec_opt_bytes(*a) == spec_opt_bytes(*b)),
{
    match (a, b) {
        (Option::None, Option::None) => true,
        (Some(x), Some(y)) => {
            proof {
                assert(spec_opt_bytes(*a) == Some(x@));
                assert(spec_opt_bytes(*b) == Some(y@));
            }
            if x.len() != y.len() {
                proof {
                    if spec_opt_bytes(*a) == spec_opt_bytes(*b) {
                        assert(x@ == y@);
                        assert(x@.len() == y@.len());
                    }
                }
                return false;
            }
            let n = x.len();
            let mut i: usize = 0;
            while i < n
                invariant
                    i <= n,
                    n == x@.len() == y@.len(),
                    forall|j: int| 0 <= j < i ==> x@[j] == y@[j],
                decreases n - i,
            {
                if x[i] != y[i] {
                    return false;
                }
                i = i + 1;
            }
            proof {
                assert(x@ =~= y@);
            }
            true
        },
        _ => false,
    }
}

/// The key under which one mailbox property's bytes are stored.
pub open spec fn spec_mailbox_value_key(
    account_id: AccountId,
    doc: DocumentId,
    p: Property,
) -> ValueKey {
    ValueKey {
        account_id,
        collection: Collection::Mailbox,
        document_id: doc,
        kind: ValueKind::Field(spec_property_field(p)),
    }
}

/// Every right, as the owner holds them.
pub open spec fn spec_owner_rights() -> MailboxRights {
    MailboxRights {
        may_read_items: true,
        may_add_items: true,
        may_remove_items: true,
        may_set_seen: true,
        may_set_keywords: true,
        may_create_child: true,
        may_rename: true,
        may_delete: true,
        may_submit: true,
    }
}

/// The rights a shared account derives from its grants.
pub open spec fn spec_shared_rights(g: AclGrants) -> MailboxRights {
    MailboxRights {
        may_read_items: g.read_items,
        may_add_items: g.add_items,
        may_remove_items: g.remove_items,
        may_set_seen: g.modify_items,
        may_set_keywords: g.modify_items,
        may_create_child: g.create_child,
        may_rename: g.modify,
        may_delete: g.delete,
        may_submit: g.submit,
    }
}

/// What one returned property value owes to the store's rows: stored text
/// decoded, numbers read big-endian, parent ids shifted down by one,
/// counts over the mailbox's live mail documents, thread counts over their
/// distinct stored thread ids, rights from the caller's grants, and the
/// subscription flag against the requesting account.
pub open spec fn spec_mailbox_value_ok(
    s: &JMAPStore,
    account_id: AccountId,
    primary_id: AccountId,
    doc: DocumentId,
    prop: Property,
    shared: Option<AclGrants>,
    v: Value,
) -> bool {
    match prop {
        Property::Id => v == (Value::Id { value: doc as u64 }),
        Property::Name | Property::Role => match spec_val_row(
            s.values@,
            spec_mailbox_value_key(account_id, doc, prop),
        ) {
            Some(bts) => if exists|cs: Seq<char>| vstd::utf8::encode_utf8(cs) == bts {
                v matches Value::Text { value } && vstd::utf8::encode_utf8(value@) == bts
            } else {
                v is Null
            },
            Option::None => v is Null,
        },
        Property::SortOrder => (v matches Value::Number { value: n } && n as int == (
        match spec_val_row(s.values@, spec_mailbox_value_key(account_id, doc, prop)) {
            Some(bts) => if bts.len() == 8 {
                crate::serialize::spec_be_u64_read(bts, 0) % 0x1_0000_0000
            } else {
                0
            },
            Option::None => 0,
        })),
        Property::ParentId => match spec_val_row(
            s.values@,
            spec_mailbox_value_key(account_id, doc, prop),
        ) {
            Some(bts) => if bts.len() == 8 && crate::serialize::spec_be_u64_read(bts, 0) > 0 {
                v == (Value::Id {
                    value: (crate::serialize::spec_be_u64_read(bts, 0) - 1) as u64,
                })
            } else {
                v is Null
            },
            Option::None => v is Null,
        },
        Property::TotalEmails => (v matches Value::Number { value: n } && ({
            let set = spec_mailbox_tag_docs(s, account_id, doc);
            set.len() <= u32::MAX ==> n as nat == set.len()
        })),
        Property::UnreadEmails => (v matches Value::Number { value: n } && ({
            let set = spec_mailbox_unread_docs(s, account_id, doc);
            set.len() <= u32::MAX ==> n as nat == set.len()
        })),
        Property::TotalThreads => (v matches Value::Number { value: n } && exists|docs: Seq<u32>|
            #![trigger spec_distinct_count(s, account_id, docs)]
            (forall|a: int, b: int| 0 <= a < b < docs.len() ==> docs[a] < docs[b]) && (forall|
                d: u32,
            |
                docs.contains(d) == spec_mailbox_tag_docs(s, account_id, doc).contains(d)) && (
            spec_distinct_count(s, account_id, docs) <= u32::MAX ==> n as nat
                == spec_distinct_count(s, account_id, docs))),
        Property::UnreadThreads => (v matches Value::Number { value: n } && exists|docs: Seq<u32>|
            #![trigger spec_distinct_count(s, account_id, docs)]
            (forall|a: int, b: int| 0 <= a < b < docs.len() ==> docs[a] < docs[b]) && (forall|
                d: u32,
            |
                docs.contains(d) == spec_mailbox_unread_docs(s, account_id, doc).contains(d)) && (
            spec_distinct_count(s, account_id, docs) <= u32::MAX ==> n as nat
                == spec_distinct_count(s, account_id, docs))),
        Property::MyRights => v == (Value::MailboxRights {
            value: match shared {
                Some(g) => spec_shared_rights(g),
                Option::None => spec_owner_rights(),
            },
        }),
        Property::IsSubscribed => v == (Value::Bool {
            value: spec_val_row(s.values@, spec_mailbox_value_key(account_id, doc, prop)) == Some(
                crate::serialize::spec_be_u64(primary_id as u64),
            ),
        }),
        Property::ACL | Property::Invalid => v is Null,
    }
}

impl JMAPStore {
    /// The live mail documents filed in one mailbox, as a bitmap.
    pub fn mailbox_tag_bitmap(&self, account_id: AccountId, doc: DocumentId) -> (r:
        roaring::RoaringBitmap)
        requires
            self.wf(),
        ensures
            bitmap::bm(r) == spec_mailbox_tag_docs(self, account_id, doc),
            bitmap::bm(r).finite(),
    {
        let mut b = bm_rows_get(
            &self.bitmaps,
            BitmapKey {
                account_id,
                collection: Collection::Mail,
                kind: BitmapKind::Tag {
                    field: MessageField::Mailbox.to_field(),
                    value: doc as u64,
                },
            },
        );
        let mut live = bm_rows_get(
            &self.bitmaps,
            BitmapKey { account_id, collection: Collection::Mail, kind: BitmapKind::Used },
        );
        let tomb = bm_rows_get(
            &self.bitmaps,
            BitmapKey { account_id, collection: Collection::Mail, kind: BitmapKind::Tombstoned },
        );
        bitmap::bm_difference_with(&mut live, &tomb);
        bitmap::bm_intersect_with(&mut b, &live);
        proof {
            assert(bitmap::bm(b) =~= spec_mailbox_tag_docs(self, account_id, doc));
        }
        b
    }

    /// The unread part of one mailbox, as a bitmap.
    pub fn mailbox_unread_bitmap(&self, account_id: AccountId, doc: DocumentId) -> (r:
        roaring::RoaringBitmap)
        requires
            self.wf(),
        ensures
            bitmap::bm(r) == spec_mailbox_unread_docs(self, account_id, doc),
            bitmap::bm(r).finite(),
    {
        let mut b = self.mailbox_tag_bitmap(account_id, doc);
        let seen = bm_rows_get(
            &self.bitmaps,
            BitmapKey {
                account_id,
                collection: Collection::Mail,
                kind: BitmapKind::Tag { field: MessageField::Keyword.to_field(), value: 0 },
            },
        );
        bitmap::bm_difference_with(&mut b, &seen);
        b
    }

    /// Count the distinct stored thread ids over a document list.
    #[verifier::loop_isolation(false)]
    pub fn distinct_thread_count(&self, account_id: AccountId, docs: &Vec<u32>) -> (r: usize)
        requires
            self.wf(),
        ensures
            r as nat == spec_distinct_count(self, account_id, docs@),
    {
        let n = docs.len();
        let mut count: usize = 0;
        let mut i: usize = 0;
        while i < n
            invariant
                i <= n,
                n == docs@.len(),
                count <= i,
                count as nat == spec_distinct_count(self, account_id, docs@.take(i as int)),
            decreases n - i,
        {
            let ti = val_rows_get(
                &self.values,
                ValueKey {
                    account_id,
                    collection: Collection::Mail,
                    document_id: docs[i],
                    kind: ValueKind::Field(MessageField::ThreadId.to_field()),
                },
            );
            let mut found = false;
            let mut j: usize = 0;
            while j < i
                invariant
                    j <= i < n,
                    n == docs@.len(),
                    found == exists|k: int|
                        0 <= k < j && spec_thread_of(self, account_id, #[trigger] docs@[k])
                            == spec_thread_of(self, account_id, docs@[i as int]),
                    spec_opt_bytes(ti) == spec_thread_of(self, account_id, docs@[i as int]),
                decreases i - j,
            {
                let tj = val_rows_get(
                    &self.values,
                    ValueKey {
                        account_id,
                        collection: Collection::Mail,
                        document_id: docs[j],
                        kind: ValueKind::Field(MessageField::ThreadId.to_field()),
                    },
                );
                if opt_bytes_eq(&tj, &ti) {
                    found = true;
                }
                j = j + 1;
            }
            proof {
                assert(docs@.take(i + 1).drop_last() =~= docs@.take(i as int));
                assert(docs@.take(i + 1).last() == docs@[i as int]);
                assert((exists|k: int|
                    0 <= k < docs@.take(i + 1).len() - 1 && spec_thread_of(
                        self,
                        account_id,
                        #[trigger] docs@.take(i + 1)[k],
                    ) == spec_thread_of(self, account_id, docs@.take(i + 1).last())) == found) by {
                    if found {
                        let k = choose|k: int|
                            0 <= k < i && spec_thread_of(self, account_id, #[trigger] docs@[k])
                                == spec_thread_of(self, account_id, docs@[i as int]);
                        assert(docs@.take(i + 1)[k] == docs@[k]);
                    } else {
                        if exists|k: int|
                            0 <= k < docs@.take(i + 1).len() - 1 && spec_thread_of(
                                self,
                                account_id,
                                #[trigger] docs@.take(i + 1)[k],
                            ) == spec_thread_of(self, account_id, docs@.take(i + 1).last()) {
                            let k = choose|k: int|
                                0 <= k < docs@.take(i + 1).len() - 1 && spec_thread_of(
                                    self,
                                    account_id,
                                    #[trigger] docs@.take(i + 1)[k],
                                ) == spec_thread_of(self, account_id, docs@.take(i + 1).last());
                            assert(docs@.take(i + 1)[k] == docs@[k]);
                            assert(false);
                        }
                    }
                }
            }
            if !found {
                count = count + 1;
            }
            i = i + 1;
        }
        proof {
            assert(docs@.take(n as int) =~= docs@);
        }
        count
    }

    /// One property value of a live mailbox, read from the store.
    pub fn mailbox_value(
        &self,
        account_id: AccountId,
        primary_id: AccountId,
        doc: DocumentId,
        prop: Property,
        shared: &Option<AclGrants>,
    ) -> (v: Value)
        requires
            self.wf(),
        ensures
            spec_mailbox_value_ok(self, account_id, primary_id, doc, prop, *shared, v),
    {
        match prop {
            Property::Id => Value::Id { value: doc as u64 },
            Property::Name | Property::Role => {
                let key = ValueKey {
                    account_id,
                    collection: Collection::Mailbox,
                    document_id: doc,
                    kind: ValueKind::Field(prop.to_field()),
                };
                match val_rows_get(&self.values, key) {
                    Some(b) => match crate::strutil::string_from_utf8(b) {
                        Some(s) => Value::Text { value: s },
                        Option::None => Value::Null,
                    },
                    Option::None => Value::Null,
                }
            },
            Property::SortOrder => {
                let key = ValueKey {
                    account_id,
                    collection: Collection::Mailbox,
                    document_id: doc,
                    kind: ValueKind::Field(prop.to_field()),
                };
                let n: u32 = match val_rows_get(&self.values, key) {
                    Some(b) => if b.len() == 8 {
                        let w = crate::serialize::read_be_u64(b.as_slice(), 0);
                        proof {
                            assert(w == crate::serialize::spec_be_u64_read(b@, 0));
                        }
                        let t: u32 = (
                        #[verifier::truncate]
                        (w as u32));
                        proof {
                            assert(t as int == w as int % 0x1_0000_0000) by (bit_vector)
                                requires
                                    t == w as u32,
                            ;
                        }
                        t
                    } else {
                        0
                    },
                    Option::None => 0,
                };
                Value::Number { value: n }
            },
            Property::ParentId => {
                let key = ValueKey {
                    account_id,
                    collection: Collection::Mailbox,
                    document_id: doc,
                    kind: ValueKind::Field(prop.to_field()),
                };
                match val_rows_get(&self.values, key) {
                    Some(b) => if b.len() == 8 {
                        let p = crate::serialize::read_be_u64(b.as_slice(), 0);
                        if p > 0 {
                            Value::Id { value: p - 1 }
                        } else {
                            Value::Null
                        }
                    } else {
                        Value::Null
                    },
                    Option::None => Value::Null,
                }
            },
            Property::TotalEmails => {
                let b = self.mailbox_tag_bitmap(account_id, doc);
                let n = bitmap::bm_len(&b);
                Value::Number {
                    value: (
                    #[verifier::truncate]
                    (n as u32)),
                }
            },
            Property::UnreadEmails => {
                let b = self.mailbox_unread_bitmap(account_id, doc);
                let n = bitmap::bm_len(&b);
                Value::Number {
                    value: (
                    #[verifier::truncate]
                    (n as u32)),
                }
            },
            Property::TotalThreads => {
                let b = self.mailbox_tag_bitmap(account_id, doc);
                let docs = bitmap::bm_to_vec(&b);
                let n = self.distinct_thread_count(account_id, &docs);
                proof {
                    assert(forall|d: u32|
                        docs@.contains(d) == spec_mailbox_tag_docs(self, account_id, doc).contains(
                            d,
                        ));
                }
                Value::Number {
                    value: (
                    #[verifier::truncate]
                    (n as u32)),
                }
            },
            Property::UnreadThreads => {
                let b = self.mailbox_unread_bitmap(account_id, doc);
                let docs = bitmap::bm_to_vec(&b);
                let n = self.distinct_thread_count(account_id, &docs);
                proof {
                    assert(forall|d: u32|
                        docs@.contains(d) == spec_mailbox_unread_docs(
                            self,
                            account_id,
                            doc,
                        ).contains(d));
                }
                Value::Number {
                    value: (
                    #[verifier::truncate]
                    (n as u32)),
                }
            },
            Property::MyRights => Value::MailboxRights {
                value: match shared {
                    Some(g) => MailboxRights::shared(*g),
                    Option::None => MailboxRights::owner(),
                },
            },
            Property::IsSubscribed => {
                let key = ValueKey {
                    account_id,
                    collection: Collection::Mailbox,
                    document_id: doc,
                    kind: ValueKind::Field(prop.to_field()),
                };
                let stored = val_rows_get(&self.values, key);
                let mut want: Vec<u8> = Vec::new();
                crate::serialize::write_be_u64(&mut want, primary_id as u64);
                let sub = opt_bytes_eq(&stored, &Some(want));
                Value::Bool { value: sub }
            },
            Property::ACL | Property::Invalid => Value::Null,
        }
    }

    /// Answer a mailbox read: for each requested id in order, either a
    /// property bag (live mailbox) or a place on the not-found list, with
    /// every value as `spec_mailbox_value_ok` demands.  `shared` carries
    /// the grants of a shared account; `None` means the owner reads.
    #[verifier::loop_isolation(false)]
    #[verifier::spinoff_prover]
    pub fn mailbox_get(&self, request: &MailboxGetRequest, shared: Option<AclGrants>) -> (r:
        MailboxGetResponse)
        requires
            self.wf(),
        ensures
            r.not_found@ == request.ids@.filter(
                |id: JMAPId| !spec_mailbox_found(self, request.account_id, id),
            ),
            r.list@.len() == request.ids@.filter(
                (|id: JMAPId| spec_mailbox_found(self, request.account_id, id)),
            ).len(),
            forall|i: int|
                0 <= i < r.list@.len() ==> (#[trigger] r.list@[i]).0 == request.ids@.filter(
                    (|id: JMAPId| spec_mailbox_found(self, request.account_id, id)),
                )[i],
            forall|i: int|
                0 <= i < r.list@.len() ==> spec_mailbox_entry_ok(
                    self,
                    request.account_id,
                    request.primary_id,
                    request.properties@,
                    shared,
                    (#[trigger] r.list@[i]).0,
                    r.list@[i].1,
                ),
    {
        let ghost found_pred = |id: JMAPId| spec_mailbox_found(self, request.account_id, id);
        let ghost lost_pred = |id: JMAPId| !spec_mailbox_found(self, request.account_id, id);
        let mut live = bm_rows_get(
            &self.bitmaps,
            BitmapKey {
                account_id: request.account_id,
                collection: Collection::Mailbox,
                kind: BitmapKind::Used,
            },
        );
        let tomb = bm_rows_get(
            &self.bitmaps,
            BitmapKey {
                account_id: request.account_id,
                collection: Collection::Mailbox,
                kind: BitmapKind::Tombstoned,
            },
        );
        bitmap::bm_difference_with(&mut live, &tomb);
        proof {
            assert(bitmap::bm(live) =~= crate::query::spec_query_live(
                self,
                request.account_id,
                Collection::Mailbox,
            ));
        }
        let mut list: Vec<(JMAPId, Mailbox)> = Vec::new();
        let mut not_found: Vec<JMAPId> = Vec::new();
        let n = request.ids.len();
        let mut i: usize = 0;
        while i < n
            invariant
                i <= n,
                n == request.ids@.len(),
                bitmap::bm(live) == crate::query::spec_query_live(
                    self,
                    request.account_id,
                    Collection::Mailbox,
                ),
                not_found@ == request.ids@.take(i as int).filter(lost_pred),
                list@.len() == request.ids@.take(i as int).filter(found_pred).len(),
                forall|a: int|
                    0 <= a < list@.len() ==> (#[trigger] list@[a]).0 == request.ids@.take(
                        i as int,
                    ).filter(found_pred)[a],
                forall|a: int|
                    0 <= a < list@.len() ==> spec_mailbox_entry_ok(
                        self,
                        request.account_id,
                        request.primary_id,
                        request.properties@,
                        shared,
                        (#[trigger] list@[a]).0,
                        list@[a].1,
                    ),
            decreases n - i,
        {
            let id = request.ids[i];
            let is_found = id <= u32::MAX as u64 && bitmap::bm_contains(&live, id as u32);
            proof {
                assert(is_found == spec_mailbox_found(self, request.account_id, id));
                reveal(Seq::filter);
                assert(request.ids@.take(i + 1).drop_last() =~= request.ids@.take(i as int));
                assert(request.ids@.take(i + 1).last() == id);
            }
            if is_found {
                let doc = id as u32;
                let mut props: Vec<(Property, Value)> = Vec::new();
                let m = request.properties.len();
                let mut k: usize = 0;
                while k < m
                    invariant
                        k <= m,
                        m == request.properties@.len(),
                        props@.len() == k,
                        doc == id as u32,
                        forall|t: int|
                            0 <= t < k ==> (#[trigger] props@[t]).0 == request.properties@[t]
                                && spec_mailbox_value_ok(
                                self,
                                request.account_id,
                                request.primary_id,
                                doc,
                                request.properties@[t],
                                shared,
                                props@[t].1,
                            ),
                    decreases m - k,
                {
                    let p = request.properties[k];
                    let v = self.mailbox_value(
                        request.account_id,
                        request.primary_id,
                        doc,
                        p,
                        &shared,
                    );
                    props.push((p, v));
                    k = k + 1;
                }
                list.push((id, Mailbox { properties: props }));
            } else {
                not_found.push(id);
            }
            i = i + 1;
        }
        proof {
            assert(request.ids@.take(n as int) =~= request.ids@);
        }
        MailboxGetResponse { list, not_found }
    }
}

/// What one listed entry owes: the requested properties in order, each
/// value as the store's rows demand.
pub open spec fn spec_mailbox_entry_ok(
    s: &JMAPStore,
    account_id: AccountId,
    primary_id: AccountId,
    props: Seq<Property>,
    shared: Option<AclGrants>,
    id: JMAPId,
    mb: Mailbox,
) -> bool {
    &&& mb.properties@.len() == props.len()
    &&& forall|k: int|
        0 <= k < props.len() ==> (#[trigger] mb.properties@[k]).0 == props[k]
            && spec_mailbox_value_ok(
            s,
            account_id,
            primary_id,
            id as u32,
            props[k],
            shared,
            mb.properties@[k].1,
        )
}

/// A mailbox read request: the account, the requesting principal, the
/// ids asked for and the properties wanted of each.
#[derive(Debug, Clone, PartialEq, Eq)]
pub struct MailboxGetRequest {
    pub account_id: AccountId,
    pub primary_id: AccountId,
    pub ids: Vec<JMAPId>,
    pub properties: Vec<Property>,
}

/// A mailbox read response: found mailboxes in request order, and the ids
/// that named no live mailbox.
#[derive(Debug, Clone, PartialEq, Eq)]
pub struct MailboxGetResponse {
    pub list: Vec<(JMAPId, Mailbox)>,
    pub not_found: Vec<JMAPId>,
}

} // verus!
