use key_rotate::errors::RotateError;
use key_rotate::rotate::Outcome;
use key_rotate::rotate::begin_rotation;

fn marker() -> Vec<u8> {
    b"another_default".to_vec()
}

#[test]
fn rotate_default_profile_end_to_end() {
    let text = b"[default]\naws_access_key_id = AKIA_OLD\naws_secret_access_key = secretOLD\n"
        .to_vec();
    let rot = begin_rotation(Some(text), b"default".to_vec(), marker()).unwrap();
    assert_eq!(rot.old_key, b"AKIA_OLD".to_vec());
    let plan = rot
        .created_step(Some((b"AKIA_NEW".to_vec(), b"secretNEW".to_vec())))
        .unwrap();
    assert_eq!(plan.old_key, b"AKIA_OLD".to_vec());
    assert_eq!(plan.new_key_id, b"AKIA_NEW".to_vec());
    let expected =
        b"[default]\naws_access_key_id = AKIA_NEW\naws_secret_access_key = secretNEW\n".to_vec();
    assert_eq!(plan.bytes, expected);
    let del = plan.persisted_step(true).unwrap();
    assert_eq!(del.old_key, b"AKIA_OLD".to_vec());
    match del.deleted_step(true) {
        Outcome::Success => {}
        Outcome::PartialSuccess { .. } => panic!("delete succeeded"),
    }
}

#[test]
fn missing_file_is_fatal_before_any_remote_call() {
    let r = begin_rotation(None, b"default".to_vec(), marker());
    assert_eq!(r.err(), Some(RotateError::FileNotFound));
}

#[test]
fn failed_create_aborts_with_api_error() {
    let text = b"[default]\naws_access_key_id = AKIA_OLD\naws_secret_access_key = s\n".to_vec();
    let rot = begin_rotation(Some(text), b"default".to_vec(), marker()).unwrap();
    let r = rot.created_step(None);
    assert_eq!(r.err(), Some(RotateError::Api));
}

#[test]
fn malformed_new_credentials_are_rejected() {
    let text = b"[default]\naws_access_key_id = AKIA_OLD\n".to_vec();
    let rot = begin_rotation(Some(text), b"default".to_vec(), marker()).unwrap();
    let r = rot.created_step(Some((b"AKIA\nNEW".to_vec(), b"secret".to_vec())));
    assert_eq!(r.err(), Some(RotateError::Api));
}

#[test]
fn failed_write_is_fatal_io_error() {
    let text = b"[default]\naws_access_key_id = AKIA_OLD\n".to_vec();
    let rot = begin_rotation(Some(text), b"default".to_vec(), marker()).unwrap();
    let plan = rot
        .created_step(Some((b"AKIA_NEW".to_vec(), b"secretNEW".to_vec())))
        .unwrap();
    let r = plan.persisted_step(false);
    assert_eq!(r.err(), Some(RotateError::Io));
}

#[test]
fn failed_delete_reports_partial_success_and_new_key_survives() {
    let text = b"[default]\naws_access_key_id = AKIA_OLD\naws_secret_access_key = old\n".to_vec();
    let rot = begin_rotation(Some(text), b"default".to_vec(), marker()).unwrap();
    let plan = rot
        .created_step(Some((b"AKIA_NEW".to_vec(), b"secretNEW".to_vec())))
        .unwrap();
    let written = plan.bytes.clone();
    let del = plan.persisted_step(true).unwrap();
    match del.deleted_step(false) {
        Outcome::PartialSuccess { old_key } => assert_eq!(old_key, b"AKIA_OLD".to_vec()),
        Outcome::Success => panic!("delete failed, so the outcome must be partial"),
    }
    // The persisted bytes still hold the new pair.
    let again = begin_rotation(Some(written), b"default".to_vec(), marker()).unwrap();
    assert_eq!(again.old_key, b"AKIA_NEW".to_vec());
    assert_eq!(
        again.file.get(b"default", b"aws_secret_access_key"),
        Some(b"secretNEW".to_vec())
    );
}

#[test]
fn only_the_selected_profile_is_mutated() {
    let text = b"[home]\naws_access_key_id = HOME_KEY\naws_secret_access_key = homesecret\n[work]\naws_access_key_id = WORK_OLD\naws_secret_access_key = worksecret\n[play]\naws_access_key_id = PLAY_KEY\n".to_vec();
    let rot = begin_rotation(Some(text), b"work".to_vec(), marker()).unwrap();
    assert_eq!(rot.old_key, b"WORK_OLD".to_vec());
    let plan = rot
        .created_step(Some((b"WORK_NEW".to_vec(), b"newsecret".to_vec())))
        .unwrap();
    let expected = b"[home]\naws_access_key_id = HOME_KEY\naws_secret_access_key = homesecret\n[work]\naws_access_key_id = WORK_NEW\naws_secret_access_key = newsecret\n[play]\naws_access_key_id = PLAY_KEY\n".to_vec();
    assert_eq!(plan.bytes, expected);
}

#[test]
fn missing_profile_is_field_not_found() {
    let text = b"[default]\naws_access_key_id = AKIA\n".to_vec();
    let r = begin_rotation(Some(text), b"work".to_vec(), marker());
    assert_eq!(r.err(), Some(RotateError::FieldNotFound));
}

#[test]
fn empty_key_id_is_field_not_found() {
    let text = b"[default]\naws_access_key_id =\n".to_vec();
    let r = begin_rotation(Some(text), b"default".to_vec(), marker());
    assert_eq!(r.err(), Some(RotateError::FieldNotFound));
}

#[test]
fn profile_named_default_with_header_is_distinct_from_headerless() {
    // Entries without a header belong to the marker section, so an explicit
    // `[default]` profile can coexist with them.
    let text = b"aws_access_key_id = LOOSE\n[default]\naws_access_key_id = EXPLICIT\n".to_vec();
    let rot = begin_rotation(Some(text), b"default".to_vec(), marker()).unwrap();
    assert_eq!(rot.old_key, b"EXPLICIT".to_vec());
    assert_eq!(
        rot.file.get(b"another_default", b"aws_access_key_id"),
        Some(b"LOOSE".to_vec())
    );
}
