use jmap_core::mailbox::{MailboxGetRequest, Property, Value};
use jmap_core::store::JMAPStore;
use jmap_core::types::Collection;
use jmap_core::update::{
    DocumentBatch, FieldOptions, TextValue, UpdateField, WriteAction, WriteBatch,
};

/// Two mailboxes and three mails: mailbox 0 ("inbox", sort order 7,
/// subscribed by account 1) holds mails 0..2; mail 0 is seen; mails 0 and
/// 1 share a thread.  Mailbox 1 ("archive") has mailbox 0 as its parent.
fn seeded_store() -> JMAPStore {
    let mut store = JMAPStore::new();
    let mut batch = WriteBatch::new(1);
    batch.batches.push(DocumentBatch {
        collection: Collection::Mailbox,
        action: Some(WriteAction::Insert(0)),
        fields: vec![
            UpdateField::Text {
                field: Property::Name.to_field(),
                options: FieldOptions::Store,
                value: TextValue::Keyword(String::from("inbox")),
            },
            UpdateField::LongInteger {
                field: Property::SortOrder.to_field(),
                options: FieldOptions::Store,
                value: 7,
            },
            UpdateField::LongInteger {
                field: Property::IsSubscribed.to_field(),
                options: FieldOptions::Store,
                value: 1,
            },
        ],
        log_action: Some(jmap_core::changelog::LogAction::Insert(0)),
    });
    batch.batches.push(DocumentBatch {
        collection: Collection::Mailbox,
        action: Some(WriteAction::Insert(1)),
        fields: vec![
            UpdateField::Text {
                field: Property::Name.to_field(),
                options: FieldOptions::Store,
                value: TextValue::Keyword(String::from("archive")),
            },
            UpdateField::LongInteger {
                field: Property::ParentId.to_field(),
                options: FieldOptions::Store,
                value: 1,
            },
        ],
        log_action: Some(jmap_core::changelog::LogAction::Insert(1)),
    });
    let mailbox_field = jmap_core::mailbox::MessageField::Mailbox.to_field();
    let keyword_field = jmap_core::mailbox::MessageField::Keyword.to_field();
    let thread_field = jmap_core::mailbox::MessageField::ThreadId.to_field();
    let threads = [5u64, 5, 6];
    for d in 0u32..3 {
        let mut fields = vec![
            UpdateField::Tag {
                field: mailbox_field,
                value: 0,
                clear: false,
            },
            UpdateField::LongInteger {
                field: thread_field,
                options: FieldOptions::Store,
                value: threads[d as usize],
            },
        ];
        if d == 0 {
            fields.push(UpdateField::Tag {
                field: keyword_field,
                value: 0,
                clear: false,
            });
        }
        batch.batches.push(DocumentBatch {
            collection: Collection::Mail,
            action: Some(WriteAction::Insert(d)),
            fields,
            log_action: Some(jmap_core::changelog::LogAction::Insert(d as u64)),
        });
    }
    store.write(&batch).unwrap();
    store
}

#[test]
fn mailbox_get_reads_stored_properties_and_counts() {
    let store = seeded_store();
    let request = MailboxGetRequest {
        account_id: 1,
        primary_id: 1,
        ids: vec![0, 9, 1],
        properties: vec![
            Property::Id,
            Property::Name,
            Property::SortOrder,
            Property::ParentId,
            Property::TotalEmails,
            Property::UnreadEmails,
            Property::TotalThreads,
            Property::UnreadThreads,
            Property::IsSubscribed,
            Property::MyRights,
        ],
    };
    let r = store.mailbox_get(&request, None);
    assert_eq!(r.not_found, vec![9]);
    assert_eq!(r.list.len(), 2);

    let (id0, inbox) = &r.list[0];
    assert_eq!(*id0, 0);
    let p = &inbox.properties;
    assert_eq!(p[0], (Property::Id, Value::Id { value: 0 }));
    assert_eq!(
        p[1],
        (
            Property::Name,
            Value::Text {
                value: String::from("inbox")
            }
        )
    );
    assert_eq!(p[2], (Property::SortOrder, Value::Number { value: 7 }));
    assert_eq!(p[3], (Property::ParentId, Value::Null));
    assert_eq!(p[4], (Property::TotalEmails, Value::Number { value: 3 }));
    assert_eq!(p[5], (Property::UnreadEmails, Value::Number { value: 2 }));
    assert_eq!(p[6], (Property::TotalThreads, Value::Number { value: 2 }));
    assert_eq!(p[7], (Property::UnreadThreads, Value::Number { value: 2 }));
    assert_eq!(p[8], (Property::IsSubscribed, Value::Bool { value: true }));
    match &p[9].1 {
        Value::MailboxRights { value } => assert!(value.may_delete && value.may_read_items),
        other => panic!("expected rights, got {:?}", other),
    }

    let (id1, archive) = &r.list[1];
    assert_eq!(*id1, 1);
    let q = &archive.properties;
    assert_eq!(
        q[1],
        (
            Property::Name,
            Value::Text {
                value: String::from("archive")
            }
        )
    );
    assert_eq!(q[3], (Property::ParentId, Value::Id { value: 0 }));
    assert_eq!(q[4], (Property::TotalEmails, Value::Number { value: 0 }));
    assert_eq!(q[8], (Property::IsSubscribed, Value::Bool { value: false }));
}

#[test]
fn mailbox_get_shared_rights_follow_grants() {
    let store = seeded_store();
    let request = MailboxGetRequest {
        account_id: 1,
        primary_id: 2,
        ids: vec![0],
        properties: vec![Property::MyRights],
    };
    let grants = jmap_core::mailbox::AclGrants {
        read_items: true,
        add_items: false,
        remove_items: false,
        modify_items: true,
        create_child: false,
        modify: false,
        delete: false,
        submit: false,
    };
    let r = store.mailbox_get(&request, Some(grants));
    match &r.list[0].1.properties[0].1 {
        Value::MailboxRights { value } => {
            assert!(value.may_read_items && value.may_set_seen && value.may_set_keywords);
            assert!(!value.may_add_items && !value.may_delete && !value.may_rename);
        }
        other => panic!("expected rights, got {:?}", other),
    }
}
