use jmap_core::query::{Comparator, ComparisonOperator, Filter, LogicalOperator};
use jmap_core::store::JMAPStore;
use jmap_core::types::Collection;
use jmap_core::update::{DocumentBatch, FieldOptions, UpdateField, WriteAction, WriteBatch};

/// Three mail documents: ids 0 and 2 tagged (field 5, value 1), and a
/// sortable integer on field 7 with keys 30, 10, 20.
fn seeded_store() -> JMAPStore {
    let mut store = JMAPStore::new();
    let mut batch = WriteBatch::new(1);
    let keys = [30u32, 10, 20];
    for d in 0u32..3 {
        let mut fields = vec![UpdateField::Integer {
            field: 7,
            options: FieldOptions::Sort,
            value: keys[d as usize],
        }];
        if d != 1 {
            fields.push(UpdateField::Tag {
                field: 5,
                value: 1,
                clear: false,
            });
        }
        batch.batches.push(DocumentBatch {
            collection: Collection::Mail,
            action: Some(WriteAction::Insert(d)),
            fields,
            log_action: Some(jmap_core::changelog::LogAction::Insert(d as u64)),
        });
    }
    store.write(&batch).unwrap();
    store
}

#[test]
fn query_everything_sorts_by_field_key() {
    let store = seeded_store();
    let sort = vec![Comparator::Field {
        field: 7,
        ascending: true,
    }];
    let r = store.query_store(1, Collection::Mail, &Filter::Everything, &sort);
    assert_eq!(r, vec![1, 2, 0]);

    let sort_desc = vec![Comparator::Field {
        field: 7,
        ascending: false,
    }];
    let r = store.query_store(1, Collection::Mail, &Filter::Everything, &sort_desc);
    assert_eq!(r, vec![0, 2, 1]);
}

#[test]
fn query_tag_filter_keeps_tagged_documents() {
    let store = seeded_store();
    let sort = vec![Comparator::DocumentId];
    let r = store.query_store(
        1,
        Collection::Mail,
        &Filter::Tag { field: 5, value: 1 },
        &sort,
    );
    assert_eq!(r, vec![0, 2]);
}

#[test]
fn query_condition_compares_index_keys() {
    let store = seeded_store();
    let f = Filter::Condition {
        field: 7,
        op: ComparisonOperator::GreaterEqualThan,
        value: 20,
    };
    let sort = vec![Comparator::Field {
        field: 7,
        ascending: false,
    }];
    let r = store.query_store(1, Collection::Mail, &f, &sort);
    assert_eq!(r, vec![0, 2]);

    let f = Filter::Condition {
        field: 7,
        op: ComparisonOperator::Equal,
        value: 10,
    };
    let r = store.query_store(1, Collection::Mail, &f, &Vec::new());
    assert_eq!(r, vec![1]);
}

#[test]
fn query_operators_combine_children() {
    let store = seeded_store();
    let both = Filter::Operator {
        op: LogicalOperator::And,
        children: vec![
            Filter::Tag { field: 5, value: 1 },
            Filter::Condition {
                field: 7,
                op: ComparisonOperator::LowerThan,
                value: 25,
            },
        ],
    };
    let r = store.query_store(1, Collection::Mail, &both, &Vec::new());
    assert_eq!(r, vec![2]);

    let either = Filter::Operator {
        op: LogicalOperator::Or,
        children: vec![
            Filter::Tag { field: 5, value: 1 },
            Filter::Condition {
                field: 7,
                op: ComparisonOperator::Equal,
                value: 10,
            },
        ],
    };
    let r = store.query_store(1, Collection::Mail, &either, &Vec::new());
    assert_eq!(r, vec![0, 1, 2]);

    let untagged = Filter::Operator {
        op: LogicalOperator::Not,
        children: vec![Filter::Tag { field: 5, value: 1 }],
    };
    let r = store.query_store(1, Collection::Mail, &untagged, &Vec::new());
    assert_eq!(r, vec![1]);
}

#[test]
fn query_document_set_intersects_with_live() {
    let store = seeded_store();
    let mut set = roaring::RoaringBitmap::new();
    set.insert(1);
    set.insert(2);
    set.insert(9);
    let r = store.query_store(1, Collection::Mail, &Filter::DocumentSet(set), &Vec::new());
    assert_eq!(r, vec![1, 2]);
}

#[test]
fn query_skips_tombstoned_documents() {
    let mut store = seeded_store();
    let mut batch = WriteBatch::new(1);
    batch.batches.push(DocumentBatch {
        collection: Collection::Mail,
        action: Some(WriteAction::Delete(2)),
        fields: Vec::new(),
        log_action: Some(jmap_core::changelog::LogAction::Delete(2)),
    });
    store.write(&batch).unwrap();
    let r = store.query_store(1, Collection::Mail, &Filter::Everything, &Vec::new());
    assert_eq!(r, vec![0, 1]);
}

#[test]
fn query_documents_without_a_key_sort_last() {
    let mut store = seeded_store();
    let mut batch = WriteBatch::new(1);
    // Document 3 carries the tag but no sortable key on field 7.
    batch.batches.push(DocumentBatch {
        collection: Collection::Mail,
        action: Some(WriteAction::Insert(3)),
        fields: vec![UpdateField::Tag {
            field: 5,
            value: 1,
            clear: false,
        }],
        log_action: Some(jmap_core::changelog::LogAction::Insert(3)),
    });
    store.write(&batch).unwrap();
    let sort = vec![Comparator::Field {
        field: 7,
        ascending: true,
    }];
    let r = store.query_store(1, Collection::Mail, &Filter::Everything, &sort);
    assert_eq!(r, vec![1, 2, 0, 3]);
}
