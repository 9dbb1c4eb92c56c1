use jmap_core::bitmap::bm_contains;
use jmap_core::cron::SimpleCron;
use jmap_core::leb128::{read_leb128, write_leb128};
use jmap_core::mailbox::{AclGrants, MailboxRights, Property, Value};
use jmap_core::serialize::{read_be_u64, write_be_u64};
use jmap_core::store::{bm_rows_get, BitmapKey, BitmapKind, JMAPStore};
use jmap_core::types::{Collection, TypeState};
use jmap_core::update::{DocumentBatch, FieldOptions, UpdateField, WriteAction, WriteBatch};

#[test]
fn cron_parse_and_schedule() {
    assert_eq!(SimpleCron::parse("0 3 *"), Some(SimpleCron::EveryDay { hour: 3, minute: 0 }));
    assert_eq!(
        SimpleCron::parse("30 3 2"),
        Some(SimpleCron::EveryWeek { day: 2, hour: 3, minute: 30 })
    );
    assert_eq!(SimpleCron::parse("61 3 *"), None);
    assert_eq!(SimpleCron::parse("0 24 *"), None);
    assert_eq!(SimpleCron::parse("0 3 8"), None);
    assert_eq!(SimpleCron::parse("0 3"), None);
    assert_eq!(SimpleCron::parse("a 3 *"), None);

    let daily = SimpleCron::EveryDay { hour: 3, minute: 0 };
    // At 02:00 the daily 03:00 run is an hour away; at 04:00 it is
    // tomorrow.
    assert_eq!(daily.time_to_next_at(2 * 3600, 1), 3600);
    assert_eq!(daily.time_to_next_at(4 * 3600, 1), 23 * 3600);

    let weekly = SimpleCron::EveryWeek { day: 1, hour: 3, minute: 0 };
    // On Monday at 04:00 the Monday 03:00 run is a whole week away.
    assert_eq!(weekly.time_to_next_at(4 * 3600, 1), 7 * 86400 - 3600);
    // On Sunday at 02:00 it is one day and one hour away.
    assert_eq!(weekly.time_to_next_at(2 * 3600, 7), 86400 + 3600);
    assert!(weekly.time_to_next() <= 8 * 86400);
}

#[test]
fn type_state_names() {
    assert_eq!(TypeState::parse("Email"), TypeState::Email);
    assert_eq!(TypeState::parse("Mailbox"), TypeState::Mailbox);
    assert_eq!(TypeState::parse("bogus"), TypeState::Invalid);
    assert_eq!(TypeState::Email.name(), "Email");
    assert_eq!(TypeState::from_u64(3), TypeState::Mailbox);
    assert_eq!(TypeState::Mailbox.to_u64(), 3);
    assert!(TypeState::Mailbox.is_valid());
    assert!(!TypeState::Invalid.is_valid());
    assert_eq!(TypeState::try_from_collection(Collection::Mail), Ok(TypeState::Email));
    assert_eq!(TypeState::try_from_collection(Collection::Principal), Err(()));
}

#[test]
fn collection_tags_round_trip() {
    for c in [
        Collection::Principal,
        Collection::PushSubscription,
        Collection::Mail,
        Collection::Mailbox,
        Collection::Thread,
        Collection::Identity,
        Collection::EmailSubmission,
        Collection::VacationResponse,
    ] {
        assert_eq!(Collection::from_u8(c.to_u8()), c);
    }
}

#[test]
fn packed_jmap_ids() {
    let id = jmap_core::types::from_parts(7, 42);
    assert_eq!(jmap_core::types::get_prefix_id(id), 7);
    assert_eq!(jmap_core::types::get_document_id(id), 42);
}

#[test]
fn mailbox_values_and_rights() {
    assert_eq!(Value::Number { value: 5 }.unwrap_number(), Some(5));
    assert_eq!(Value::Text { value: "inbox".to_string() }.unwrap_text(), Some("inbox".to_string()));
    assert_eq!(Value::Null.unwrap_id(), None);
    assert_eq!(Value::Id { value: 9 }.as_id(), Some(9));
    assert!(Value::Null.is_empty());
    assert!(Value::Text { value: String::new() }.is_empty());
    assert!(!Value::Bool { value: false }.is_empty());

    assert_eq!(Property::parse("sortOrder"), Property::SortOrder);
    assert_eq!(Property::parse("nonsense"), Property::Invalid);
    assert_eq!(Property::from_field(Property::ACL.to_field()), Property::ACL);

    let owner = MailboxRights::owner();
    assert!(owner.may_delete && owner.may_submit);
    let shared = MailboxRights::shared(AclGrants {
        read_items: true,
        add_items: false,
        remove_items: false,
        modify_items: true,
        create_child: false,
        modify: false,
        delete: false,
        submit: false,
    });
    assert!(shared.may_read_items && shared.may_set_seen && shared.may_set_keywords);
    assert!(!shared.may_delete && !shared.may_add_items);
}

#[test]
fn blob_refcounts_follow_links() {
    let mut store = JMAPStore::new();
    let mut batch = WriteBatch::new(1);
    batch.batches.push(DocumentBatch {
        collection: Collection::Mail,
        action: Some(WriteAction::Insert(0)),
        fields: vec![UpdateField::Binary {
            field: 0,
            options: FieldOptions::StoreAsBlob(0),
            value: b"blob-bytes".to_vec(),
        }],
        log_action: Some(jmap_core::changelog::LogAction::Insert(0)),
    });
    store.write(&batch).unwrap();
    assert_eq!(store.blob_refs.len(), 1);
    let hash = store.blob_refs[0].0;
    assert_eq!(store.blob_refs[0].1, 1);

    // Deleting the document drops the reference.
    let mut del = WriteBatch::new(1);
    del.batches.push(DocumentBatch {
        collection: Collection::Mail,
        action: Some(WriteAction::Delete(0)),
        fields: vec![],
        log_action: Some(jmap_core::changelog::LogAction::Delete(0)),
    });
    store.write(&del).unwrap();
    assert_eq!(store.blob_refs[0], (hash, 0));
}

#[test]
fn leb128_values_round_trip() {
    for v in [0u64, 1, 127, 128, 300, u32::MAX as u64, u64::MAX] {
        let mut bytes = Vec::new();
        write_leb128(&mut bytes, v);
        let (back, end) = read_leb128(&bytes, 0).unwrap();
        assert_eq!(back, v);
        assert_eq!(end, bytes.len());
    }
}

#[test]
fn be_u64_round_trip() {
    let mut bytes = Vec::new();
    write_be_u64(&mut bytes, 0x0102_0304_0506_0708);
    assert_eq!(bytes, vec![1, 2, 3, 4, 5, 6, 7, 8]);
    assert_eq!(read_be_u64(&bytes, 0), 0x0102_0304_0506_0708);
}

#[test]
fn used_and_tombstoned_bitmaps() {

    let mut store = JMAPStore::new();
    let mut batch = WriteBatch::new(4);
    for d in 0..3u32 {
        batch.batches.push(DocumentBatch {
            collection: Collection::Mail,
            action: Some(WriteAction::Insert(d)),
            fields: vec![],
            log_action: Some(jmap_core::changelog::LogAction::Insert(d as u64)),
        });
    }
    batch.batches.push(DocumentBatch {
        collection: Collection::Mail,
        action: Some(WriteAction::Delete(1)),
        fields: vec![],
        log_action: Some(jmap_core::changelog::LogAction::Delete(1)),
    });
    store.write(&batch).unwrap();

    let used = bm_rows_get(
        &store.bitmaps,
        BitmapKey { account_id: 4, collection: Collection::Mail, kind: BitmapKind::Used },
    );
    let tomb = bm_rows_get(
        &store.bitmaps,
        BitmapKey { account_id: 4, collection: Collection::Mail, kind: BitmapKind::Tombstoned },
    );
    // Live documents are the used ids with the tombstoned ids taken out.
    for d in 0..3u32 {
        assert!(bm_contains(&used, d));
    }
    assert!(bm_contains(&tomb, 1));
    assert!(!bm_contains(&tomb, 0) && !bm_contains(&tomb, 2));
}
