//! The vacation response: a singleton per account, with typed property
//! validation on `set` and deletion through the write pipeline.

use vstd::prelude::*;

use crate::push::SetError;
use crate::store::JMAPStore;
use crate::types::{AccountId, Collection, DocumentId};
use crate::store::spec_ctr_row;
use crate::update::{DocumentBatch, FieldOptions, TextValue, UpdateField, WriteAction, WriteBatch};

verus! {

use vstd::string::StringExecFns;

/// The singleton's document id.
pub const VACATION_SINGLETON_ID: DocumentId = 0;

/// The settable properties of a vacation response.
#[derive(Debug, Clone, Copy, PartialEq, Eq, Hash, Structural)]
pub enum Property {
    Subject,
    HtmlBody,
    TextBody,
    ToDate,
    FromDate,
    IsEnabled,
    Invalid,
}

/// A typed property value of a vacation response.
#[derive(Debug, Clone, PartialEq, Eq)]
pub enum Value {
    Text { value: String },
    DateTime { value: i64 },
    Bool { value: bool },
    Null,
}

/// Which value shapes each property accepts: the text bodies take text or
/// nothing, the date bounds take a date or nothing, and the switch takes a
/// flag.
pub open spec fn spec_vacation_shape_ok(p: Property, v: Value) -> bool {
    match p {
        Property::Subject | Property::HtmlBody | Property::TextBody => v is Text || v is Null,
        Property::ToDate | Property::FromDate => v is DateTime || v is Null,
        Property::IsEnabled => v is Bool,
        Property::Invalid => false,
    }
}

/// Whether every pair of a property list has an acceptable shape.
pub open spec fn spec_vacation_all_ok(properties: Seq<(Property, Value)>) -> bool {
    forall|i: int|
        0 <= i < properties.len() ==> spec_vacation_shape_ok(
            (#[trigger] properties[i]).0,
            properties[i].1,
        )
}

/// Whether one pair has an acceptable shape, executable.
pub fn vacation_shape_ok(p: Property, v: &Value) -> (r: bool)
    ensures
        r == spec_vacation_shape_ok(p, *v),
{
    match p {
        Property::Subject | Property::HtmlBody | Property::TextBody => matches!(
            v,
            Value::Text { .. } | Value::Null
        ),
        Property::ToDate | Property::FromDate => matches!(v, Value::DateTime { .. } | Value::Null),
        Property::IsEnabled => matches!(v, Value::Bool { .. }),
        Property::Invalid => false,
    }
}

/// Field ids of the stored properties.
pub open spec fn spec_vacation_field(p: Property) -> u8 {
    match p {
        Property::Subject => 0,
        Property::HtmlBody => 1,
        Property::TextBody => 2,
        Property::ToDate => 3,
        Property::FromDate => 4,
        Property::IsEnabled => 5,
        Property::Invalid => 6,
    }
}

fn vacation_field(p: Property) -> (r: u8)
    ensures
        r == spec_vacation_field(p),
{
    match p {
        Property::Subject => 0,
        Property::HtmlBody => 1,
        Property::TextBody => 2,
        Property::ToDate => 3,
        Property::FromDate => 4,
        Property::IsEnabled => 5,
        Property::Invalid => 6,
    }
}

impl JMAPStore {
    /// Create the vacation response singleton: every property must carry
    /// an acceptable shape, and the singleton must not exist yet; the
    /// accepted properties are stored and the creation logged in one
    /// batch.
    #[verifier::loop_isolation(false)]
    pub fn vacation_response_set(
        &mut self,
        account_id: AccountId,
        properties: Vec<(Property, Value)>,
        already_exists: bool,
    ) -> (r: Result<DocumentId, SetError>)
        requires
            old(self).wf(),
            old(self).raft_index < u64::MAX,
        ensures
            final(self).wf(),
            already_exists ==> (r matches Err(e) && e is Forbidden) && *final(self) == *old(self),
            !already_exists && !spec_vacation_all_ok(properties@) ==> (r matches Err(e)
                && e is InvalidProperties) && *final(self) == *old(self),
            !already_exists && spec_vacation_all_ok(properties@) ==> ({
                ||| (r == Result::<DocumentId, SetError>::Ok(VACATION_SINGLETON_ID)
                    && crate::store::spec_bm_row(
                    final(self).bitmaps@,
                    crate::store::BitmapKey {
                        account_id,
                        collection: Collection::VacationResponse,
                        kind: crate::store::BitmapKind::Used,
                    },
                ) == crate::store::spec_bm_row(
                    old(self).bitmaps@,
                    crate::store::BitmapKey {
                        account_id,
                        collection: Collection::VacationResponse,
                        kind: crate::store::BitmapKind::Used,
                    },
                ).insert(VACATION_SINGLETON_ID))
                ||| (r matches Err(e) && e is Forbidden && spec_ctr_row(
                    old(self).change_counters@,
                    (account_id, Collection::VacationResponse),
                ) == u64::MAX)
            }),
    {
        if already_exists {
            return Err(
                SetError::Forbidden {
                    description: String::from_str(
                        "The vacation response exists; update it instead.",
                    ),
                },
            );
        }
        let n = properties.len();
        let mut i: usize = 0;
        while i < n
            invariant
                i <= n,
                n == properties@.len(),
                forall|j: int|
                    0 <= j < i ==> spec_vacation_shape_ok(
                        (#[trigger] properties@[j]).0,
                        properties@[j].1,
                    ),
            decreases n - i,
        {
            let (p, v) = &properties[i];
            if !vacation_shape_ok(*p, v) {
                return Err(
                    SetError::InvalidProperties {
                        property: String::from_str("vacationResponse"),
                        description: String::from_str("Field could not be set."),
                    },
                );
            }
            i = i + 1;
        }

        // Store the accepted text and flag fields; nulls clear.
        let mut fields: Vec<UpdateField> = Vec::new();
        let mut k: usize = 0;
        while k < n
            invariant
                k <= n,
                n == properties@.len(),
            decreases n - k,
        {
            let (p, v) = &properties[k];
            let field = vacation_field(*p);
            match v {
                Value::Text { value } => {
                    fields.push(
                        UpdateField::Text {
                            field,
                            options: FieldOptions::Store,
                            value: TextValue::Keyword(value.clone()),
                        },
                    );
                },
                Value::DateTime { value } => {
                    fields.push(
                        UpdateField::LongInteger {
                            field,
                            options: FieldOptions::Store,
                            value: *value as u64,
                        },
                    );
                },
                Value::Bool { value } => {
                    fields.push(
                        UpdateField::LongInteger {
                            field,
                            options: FieldOptions::Store,
                            value: if *value {
                                1
                            } else {
                                0
                            },
                        },
                    );
                },
                Value::Null => {
                    fields.push(
                        UpdateField::Text {
                            field,
                            options: FieldOptions::Clear,
                            value: TextValue::Keyword(String::new()),
                        },
                    );
                },
            }
            k = k + 1;
        }

        let mut batch = WriteBatch::new(account_id);
        batch.batches.push(
            DocumentBatch {
                collection: Collection::VacationResponse,
                action: Some(WriteAction::Insert(VACATION_SINGLETON_ID)),
                fields,
                log_action: Some(
                    crate::changelog::LogAction::Insert(VACATION_SINGLETON_ID as u64),
                ),
            },
        );
        match self.write(&batch) {
            Ok(_) => {
                proof {
                    assert(crate::update::spec_insert_docs(
                        batch.batches@,
                        Collection::VacationResponse,
                    ) =~= Set::<u32>::empty().insert(VACATION_SINGLETON_ID));
                }
                Ok(VACATION_SINGLETON_ID)
            },
            Err(_) => {
                proof {
                    let counters = old(self).change_counters@;
                    assert(crate::update::spec_counter_exhausted(
                        counters,
                        account_id,
                        batch.batches@,
                    ));
                    let q = choose|q: int|
                        0 <= q < 8 && crate::update::spec_actions_for(
                            batch.batches@,
                            #[trigger] crate::update::spec_collection_order()[q],
                        ).len() > 0 && spec_ctr_row(
                            counters,
                            (account_id, crate::update::spec_collection_order()[q]),
                        ) == u64::MAX;
                    let c = crate::update::spec_collection_order()[q];
                    assert(batch.batches@.len() == 1);
                    assert(batch.batches@[0].collection == Collection::VacationResponse);
                    assert(batch.batches@.drop_first()
                        =~= Seq::<DocumentBatch>::empty());
                    if c != Collection::VacationResponse {
                        assert(crate::update::spec_actions_for(
                            batch.batches@.drop_first(),
                            c,
                        ) =~= Seq::<crate::changelog::LogAction>::empty());
                        assert(crate::update::spec_actions_for(batch.batches@, c)
                            =~= Seq::<crate::changelog::LogAction>::empty() + Seq::<
                            crate::changelog::LogAction,
                        >::empty());
                        assert(crate::update::spec_actions_for(batch.batches@, c).len() == 0);
                        assert(false);
                    }
                }
                Err(
                    SetError::Forbidden {
                        description: String::from_str("The store is exhausted."),
                    },
                )
            },
        }
    }

    /// Delete the vacation response singleton: tombstone it and log the
    /// deletion.
    pub fn vacation_response_delete(&mut self, account_id: AccountId) -> (r: Result<
        (),
        SetError,
    >)
        requires
            old(self).wf(),
            old(self).raft_index < u64::MAX,
        ensures
            final(self).wf(),
            r is Ok ==> crate::store::spec_bm_row(
                final(self).bitmaps@,
                crate::store::BitmapKey {
                    account_id,
                    collection: Collection::VacationResponse,
                    kind: crate::store::BitmapKind::Tombstoned,
                },
            ) == crate::store::spec_bm_row(
                old(self).bitmaps@,
                crate::store::BitmapKey {
                    account_id,
                    collection: Collection::VacationResponse,
                    kind: crate::store::BitmapKind::Tombstoned,
                },
            ).insert(VACATION_SINGLETON_ID),
    {
        let mut batch = WriteBatch::new(account_id);
        batch.batches.push(
            DocumentBatch {
                collection: Collection::VacationResponse,
                action: Some(WriteAction::Delete(VACATION_SINGLETON_ID)),
                fields: Vec::new(),
                log_action: Some(
                    crate::changelog::LogAction::Delete(VACATION_SINGLETON_ID as u64),
                ),
            },
        );
        match self.write(&batch) {
            Ok(_) => {
                proof {
                    assert(crate::update::spec_delete_docs(
                        batch.batches@,
                        Collection::VacationResponse,
                    ) =~= Set::<u32>::empty().insert(VACATION_SINGLETON_ID));
                }
                Ok(())
            },
            Err(_) => Err(
                SetError::Forbidden {
                    description: String::from_str("The store is exhausted."),
                },
            ),
        }
    }
}

} // verus!
