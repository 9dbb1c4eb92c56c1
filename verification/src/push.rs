//! Push subscriptions: validation of a `set` request's creation, the
//! clamp on its expiry, the generated verification code, and the write
//! into the store.

use vstd::prelude::*;

use crate::store::JMAPStore;
use crate::types::{AccountId, Collection, DocumentId};
use crate::update::{DocumentBatch, FieldOptions, TextValue, UpdateField, WriteAction, WriteBatch};

verus! {

use vstd::string::StringSliceAdditionalSpecFns;
use vstd::string::StringExecFns;
use vstd::utf8::encode_utf8;

/// Subscriptions one account may hold at most.
pub const MAX_SUBSCRIPTIONS: u64 = 100;

/// Seconds a subscription may live: seven days.
pub const EXPIRES_MAX: i64 = 604800;

/// Length of a generated verification code.
pub const VERIFICATION_CODE_LEN: usize = 32;

/// A typed failure of a `set` call.
#[derive(Debug, Clone, PartialEq, Eq)]
pub enum SetError {
    Forbidden { description: String },
    InvalidProperties { property: String, description: String },
    NotFound,
}

/// One requested push subscription, already shaped by the request parser.
#[derive(Debug, Clone, PartialEq, Eq)]
pub struct SubscriptionRequest {
    pub url: String,
    pub device_client_id: String,
    /// The requested expiry as a Unix timestamp, when one was given.
    pub expires: Option<i64>,
}

/// A validated subscription ready to store.
#[derive(Debug, Clone, PartialEq, Eq)]
pub struct ValidatedSubscription {
    pub url: String,
    pub device_client_id: String,
    pub expires: i64,
    pub verification_code: String,
}

/// The bytes of `https://`.
pub open spec fn spec_https_prefix() -> Seq<u8> {
    seq![104u8, 116, 116, 112, 115, 58, 47, 47]
}

/// Whether a URL is acceptable: it starts `https://` and stays under 512
/// bytes.
pub open spec fn spec_url_ok(url: Seq<u8>) -> bool {
    url.len() >= 8 && url.len() < 512 && url.subrange(0, 8) == spec_https_prefix()
}

/// The stored expiry: the requested timestamp, defaulted and clamped to at
/// most seven days from now.
pub open spec fn spec_clamped_expires(requested: Option<i64>, now: i64) -> int {
    let wanted: int = match requested {
        Some(t) => t as int,
        Option::None => now + EXPIRES_MAX,
    };
    if wanted > now && wanted - now > EXPIRES_MAX {
        now + EXPIRES_MAX
    } else {
        wanted
    }
}

/// Whether a URL is acceptable, executable.
#[verifier::loop_isolation(false)]
pub fn url_ok(url: &str) -> (r: bool)
    ensures
        r == spec_url_ok(url.spec_bytes()),
{
    let bytes = url.as_bytes();
    if bytes.len() < 8 || bytes.len() >= 512 {
        return false;
    }
    let r = bytes[0] == 104 && bytes[1] == 116 && bytes[2] == 116 && bytes[3] == 112 && bytes[4]
        == 115 && bytes[5] == 58 && bytes[6] == 47 && bytes[7] == 47;
    proof {
        if r {
            assert(bytes@.subrange(0, 8) =~= spec_https_prefix());
        } else {
            assert(!(bytes@.subrange(0, 8) =~= spec_https_prefix()));
        }
    }
    r
}

/// Relies on `rand::Rng::sample_iter` over `Alphanumeric`: a fresh code of
/// exactly `VERIFICATION_CODE_LEN` ASCII letters and digits.  Nothing more
/// is promised of its content.
#[verifier::external_body]
fn fresh_verification_code() -> (r: String)
    ensures
        r@.len() == VERIFICATION_CODE_LEN,
{
    let code: String = <rand::rngs::ThreadRng as rand::Rng>::sample_iter(
        rand::thread_rng(),
        rand::distributions::Alphanumeric,
    ).take(VERIFICATION_CODE_LEN).map(char::from).collect();
    code
}

/// Validate one subscription creation against the request rules: the
/// account's subscription budget, the URL shape, and the expiry clamp.
/// A fresh verification code is attached to every accepted creation.
pub fn validate_subscription(
    request: SubscriptionRequest,
    now: i64,
    existing_subscriptions: u64,
) -> (r: Result<ValidatedSubscription, SetError>)
    requires
        -0x4000_0000_0000_0000 < now < 0x4000_0000_0000_0000,
    ensures
        existing_subscriptions > MAX_SUBSCRIPTIONS ==> (r matches Err(e) && e is Forbidden),
        existing_subscriptions <= MAX_SUBSCRIPTIONS && !spec_url_ok(encode_utf8(request.url@))
            ==> (r matches Err(e) && (e matches SetError::InvalidProperties { property, .. }
            && property@ == "url"@)),
        existing_subscriptions <= MAX_SUBSCRIPTIONS && spec_url_ok(encode_utf8(request.url@)) ==> (
        r matches Ok(v) && v.url@ == request.url@ && v.device_client_id@
            == request.device_client_id@ && v.expires == spec_clamped_expires(request.expires, now)
            && v.verification_code@.len() == VERIFICATION_CODE_LEN),
{
    if existing_subscriptions > MAX_SUBSCRIPTIONS {
        return Err(
            SetError::Forbidden {
                description: String::from_str(
                    "Too many subscriptions, delete one before adding another.",
                ),
            },
        );
    }
    if !url_ok(request.url.as_str()) {
        return Err(
            SetError::InvalidProperties {
                property: String::from_str("url"),
                description: String::from_str("The url must be https and under 512 bytes."),
            },
        );
    }
    let wanted: i64 = match request.expires {
        Some(t) => t,
        None => now + EXPIRES_MAX,
    };
    let expires: i64 = if wanted > now && (wanted as i128) - (now as i128)
        > EXPIRES_MAX as i128 {
        now + EXPIRES_MAX
    } else {
        wanted
    };
    proof {
        reveal_strlit("url");
    }
    Ok(
        ValidatedSubscription {
            url: request.url,
            device_client_id: request.device_client_id,
            expires,
            verification_code: fresh_verification_code(),
        },
    )
}

/// Fields of a stored subscription, as key fields.
pub const FIELD_URL: u8 = 0;

pub const FIELD_DEVICE_CLIENT_ID: u8 = 1;

pub const FIELD_EXPIRES: u8 = 2;

pub const FIELD_VERIFICATION_CODE: u8 = 3;

impl JMAPStore {
    /// Create one push subscription: validate the request, then store its
    /// fields and log the creation in one batch.  Validation failures
    /// surface as typed `SetError`s with nothing written; an exhausted
    /// change id counter surfaces as `NotFound`-free internal failure via
    /// the same typed error the write path reports.
    pub fn push_subscription_create(
        &mut self,
        account_id: AccountId,
        document_id: DocumentId,
        request: SubscriptionRequest,
        now: i64,
        existing_subscriptions: u64,
    ) -> (r: Result<ValidatedSubscription, SetError>)
        requires
            old(self).wf(),
            old(self).raft_index < u64::MAX,
            -0x4000_0000_0000_0000 < now < 0x4000_0000_0000_0000,
        ensures
            final(self).wf(),
            existing_subscriptions > MAX_SUBSCRIPTIONS ==> (r matches Err(e) && e is Forbidden)
                && *final(self) == *old(self),
            existing_subscriptions <= MAX_SUBSCRIPTIONS && !spec_url_ok(encode_utf8(request.url@))
                ==> (r matches Err(e) && (e matches SetError::InvalidProperties {
                property,
                ..
            } && property@ == "url"@)) && *final(self) == *old(self),
            r matches Ok(v) ==> v.expires == spec_clamped_expires(request.expires, now)
                && v.verification_code@.len() == VERIFICATION_CODE_LEN && v.url@ == request.url@,
            existing_subscriptions <= MAX_SUBSCRIPTIONS && spec_url_ok(encode_utf8(request.url@))
                ==> (r is Ok || (r matches Err(e) && e is Forbidden && crate::store::spec_ctr_row(
                old(self).change_counters@,
                (account_id, Collection::PushSubscription),
            ) == u64::MAX)),
            r is Ok ==> crate::store::spec_bm_row(
                final(self).bitmaps@,
                crate::store::BitmapKey {
                    account_id,
                    collection: Collection::PushSubscription,
                    kind: crate::store::BitmapKind::Used,
                },
            ) == crate::store::spec_bm_row(
                old(self).bitmaps@,
                crate::store::BitmapKey {
                    account_id,
                    collection: Collection::PushSubscription,
                    kind: crate::store::BitmapKind::Used,
                },
            ).insert(document_id),
    {
        let validated = match validate_subscription(request, now, existing_subscriptions) {
            Ok(v) => v,
            Err(e) => {
                return Err(e);
            },
        };

        let mut fields: Vec<UpdateField> = Vec::new();
        fields.push(
            UpdateField::Text {
                field: FIELD_URL,
                options: FieldOptions::Store,
                value: TextValue::Keyword(validated.url.clone()),
            },
        );
        fields.push(
            UpdateField::Text {
                field: FIELD_DEVICE_CLIENT_ID,
                options: FieldOptions::Store,
                value: TextValue::Keyword(validated.device_client_id.clone()),
            },
        );
        fields.push(
            UpdateField::LongInteger {
                field: FIELD_EXPIRES,
                options: FieldOptions::Store,
                value: validated.expires as u64,
            },
        );
        fields.push(
            UpdateField::Text {
                field: FIELD_VERIFICATION_CODE,
                options: FieldOptions::Store,
                value: TextValue::Keyword(validated.verification_code.clone()),
            },
        );

        let mut batch = WriteBatch::new(account_id);
        batch.batches.push(
            DocumentBatch {
                collection: Collection::PushSubscription,
                action: Some(WriteAction::Insert(document_id)),
                fields,
                log_action: Some(
                    crate::changelog::LogAction::Insert(document_id as u64),
                ),
            },
        );
        let ghost pre = *self;
        match self.write(&batch) {
            Ok(_) => {
                proof {
                    assert(spec_insert_docs_single(batch.batches@, document_id));
                }
                Ok(validated)
            },
            Err(_) => {
                proof {
                    let counters = old(self).change_counters@;
                    assert(crate::update::spec_counter_exhausted(
                        counters,
                        account_id,
                        batch.batches@,
                    ));
                    let q = choose|q: int|
                        0 <= q < 8 && crate::update::spec_actions_for(
                            batch.batches@,
                            #[trigger] crate::update::spec_collection_order()[q],
                        ).len() > 0 && crate::store::spec_ctr_row(
                            counters,
                            (account_id, crate::update::spec_collection_order()[q]),
                        ) == u64::MAX;
                    let c = crate::update::spec_collection_order()[q];
                    assert(batch.batches@.len() == 1);
                    assert(batch.batches@[0].collection == Collection::PushSubscription);
                    assert(batch.batches@.drop_first() =~= Seq::<DocumentBatch>::empty());
                    if c != Collection::PushSubscription {
                        assert(crate::update::spec_actions_for(
                            batch.batches@.drop_first(),
                            c,
                        ) =~= Seq::<crate::changelog::LogAction>::empty());
                        assert(crate::update::spec_actions_for(batch.batches@, c)
                            =~= Seq::<crate::changelog::LogAction>::empty() + Seq::<
                            crate::changelog::LogAction,
                        >::empty());
                        assert(crate::update::spec_actions_for(batch.batches@, c).len() == 0);
                        assert(false);
                    }
                }
                Err(
                    SetError::Forbidden {
                        description: String::from_str("The subscription store is exhausted."),
                    },
                )
            },
        }
    }
}

/// A single-document batch inserts exactly that document into its
/// collection's used set.
pub open spec fn spec_insert_docs_single(
    batches: Seq<DocumentBatch>,
    document_id: DocumentId,
) -> bool {
    crate::update::spec_insert_docs(batches, Collection::PushSubscription) =~= Set::<
        u32,
    >::empty().insert(document_id)
}

} // verus!
