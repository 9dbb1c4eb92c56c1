use jmap_core::push::{
    validate_subscription, SetError, SubscriptionRequest, EXPIRES_MAX, VERIFICATION_CODE_LEN,
};
use jmap_core::store::{bm_rows_get, BitmapKey, BitmapKind, JMAPStore};
use jmap_core::types::Collection;
use jmap_core::vacation::{Property, Value, VACATION_SINGLETON_ID};

fn req(url: &str, expires: Option<i64>) -> SubscriptionRequest {
    SubscriptionRequest {
        url: url.to_string(),
        device_client_id: "device-a".to_string(),
        expires,
    }
}

#[test]
fn http_url_is_invalid_properties() {
    let now = 1_700_000_000;
    let r = validate_subscription(req("http://x", None), now, 0);
    match r {
        Err(SetError::InvalidProperties { property, .. }) => assert_eq!(property, "url"),
        other => panic!("expected InvalidProperties(url), got {:?}", other),
    }
}

#[test]
fn far_expiry_is_clamped_to_seven_days() {
    let now = 1_700_000_000;
    let v = validate_subscription(req("https://x", Some(now + 30 * 86400)), now, 0).unwrap();
    assert_eq!(v.expires, now + EXPIRES_MAX);
    assert_eq!(EXPIRES_MAX, 7 * 86400);
    assert_eq!(v.verification_code.len(), VERIFICATION_CODE_LEN);
    assert_eq!(v.url, "https://x");
}

#[test]
fn near_expiry_is_kept() {
    let now = 1_700_000_000;
    let v = validate_subscription(req("https://x", Some(now + 60)), now, 0).unwrap();
    assert_eq!(v.expires, now + 60);
    let d = validate_subscription(req("https://x", None), now, 0).unwrap();
    assert_eq!(d.expires, now + EXPIRES_MAX);
}

#[test]
fn too_many_subscriptions_is_forbidden() {
    let now = 1_700_000_000;
    let r = validate_subscription(req("https://x", None), now, 101);
    assert!(matches!(r, Err(SetError::Forbidden { .. })));
}

#[test]
fn overlong_url_is_invalid_properties() {
    let now = 1_700_000_000;
    let long = format!("https://{}", "x".repeat(600));
    let r = validate_subscription(req(&long, None), now, 0);
    assert!(matches!(r, Err(SetError::InvalidProperties { .. })));
}

#[test]
fn create_writes_the_subscription() {
    let now = 1_700_000_000;
    let mut store = JMAPStore::new();
    let v = store
        .push_subscription_create(5, 0, req("https://push.example", Some(now + 30 * 86400)), now, 0)
        .unwrap();
    assert_eq!(v.expires, now + EXPIRES_MAX);

    let used = bm_rows_get(
        &store.bitmaps,
        BitmapKey {
            account_id: 5,
            collection: Collection::PushSubscription,
            kind: BitmapKind::Used,
        },
    );
    assert!(jmap_core::bitmap::bm_contains(&used, 0));

    let bad = store.push_subscription_create(5, 1, req("http://x", None), now, 1);
    assert!(matches!(bad, Err(SetError::InvalidProperties { .. })));
}

#[test]
fn vacation_singleton_set_and_delete() {
    let mut store = JMAPStore::new();
    let props = vec![
        (Property::Subject, Value::Text { value: "Away".to_string() }),
        (Property::IsEnabled, Value::Bool { value: true }),
        (Property::ToDate, Value::Null),
    ];
    let id = store.vacation_response_set(2, props, false).unwrap();
    assert_eq!(id, VACATION_SINGLETON_ID);

    // A second creation is refused; a wrongly typed field is refused.
    let again = store.vacation_response_set(2, vec![], true);
    assert!(matches!(again, Err(SetError::Forbidden { .. })));
    let bad = store.vacation_response_set(
        3,
        vec![(Property::IsEnabled, Value::Text { value: "yes".to_string() })],
        false,
    );
    assert!(matches!(bad, Err(SetError::InvalidProperties { .. })));

    store.vacation_response_delete(2).unwrap();
    let tomb = bm_rows_get(
        &store.bitmaps,
        BitmapKey {
            account_id: 2,
            collection: Collection::VacationResponse,
            kind: BitmapKind::Tombstoned,
        },
    );
    assert!(jmap_core::bitmap::bm_contains(&tomb, VACATION_SINGLETON_ID));
}
