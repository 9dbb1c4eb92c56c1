use jmap_core::mail::{mail_set_validate, mail_update_mailboxes, MailSetError};

fn existing(ids: &[u32]) -> roaring::RoaringBitmap {
    let mut b = roaring::RoaringBitmap::new();
    for &id in ids {
        b.insert(id);
    }
    b
}

#[test]
fn create_requires_one_existing_mailbox() {
    let mailboxes = existing(&[1, 2]);
    assert_eq!(
        mail_set_validate(&Vec::new(), &mailboxes),
        Err(MailSetError::NoMailboxes)
    );
    assert_eq!(
        mail_set_validate(&vec![1, 3], &mailboxes),
        Err(MailSetError::MailboxNotFound { mailbox_id: 3 })
    );
    assert_eq!(mail_set_validate(&vec![1, 2], &mailboxes), Ok(()));
}

#[test]
fn patch_tags_and_clears_memberships() {
    let mailboxes = existing(&[1, 2, 3]);
    let current = vec![1, 2];
    let ops = vec![(3, true), (1, false)];
    let (new_list, actions) = mail_update_mailboxes(&current, &ops, false, &mailboxes).unwrap();
    assert_eq!(new_list, vec![2, 3]);
    assert_eq!(actions, vec![(1, false), (3, true)]);
}

#[test]
fn patch_clearing_others_keeps_only_tagged() {
    let mailboxes = existing(&[1, 2, 3]);
    let current = vec![1, 2];
    let ops = vec![(2, true)];
    let (new_list, actions) = mail_update_mailboxes(&current, &ops, true, &mailboxes).unwrap();
    assert_eq!(new_list, vec![2]);
    assert_eq!(actions, vec![(1, false)]);
}

#[test]
fn patch_rejects_a_missing_mailbox() {
    let mailboxes = existing(&[1, 2]);
    let current = vec![1];
    let ops = vec![(9, true)];
    assert_eq!(
        mail_update_mailboxes(&current, &ops, false, &mailboxes),
        Err(MailSetError::MailboxNotFound { mailbox_id: 9 })
    );
}

#[test]
fn patch_cannot_empty_the_membership() {
    let mailboxes = existing(&[1, 2]);
    let current = vec![1];
    let ops = vec![(1, false)];
    assert_eq!(
        mail_update_mailboxes(&current, &ops, false, &mailboxes),
        Err(MailSetError::NoMailboxes)
    );
}
