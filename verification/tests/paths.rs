use key_rotate::errors::RotateError;
use key_rotate::paths::expand_tilde_with;

#[test]
fn plain_path_is_unchanged() {
    let r = expand_tilde_with(b"/etc/creds", Some(b"/home/u".to_vec()));
    assert_eq!(r.unwrap(), b"/etc/creds".to_vec());
}

#[test]
fn tilde_prefix_without_slash_is_unchanged() {
    let r = expand_tilde_with(b"~user/creds", Some(b"/home/u".to_vec()));
    assert_eq!(r.unwrap(), b"~user/creds".to_vec());
}

#[test]
fn bare_tilde_is_the_home_directory() {
    let r = expand_tilde_with(b"~", Some(b"/home/u".to_vec()));
    assert_eq!(r.unwrap(), b"/home/u".to_vec());
}

#[test]
fn tilde_slash_joins_home_directory() {
    let r = expand_tilde_with(b"~/.aws/credentials", Some(b"/home/u".to_vec()));
    assert_eq!(r.unwrap(), b"/home/u/.aws/credentials".to_vec());
}

#[test]
fn root_home_does_not_double_the_separator() {
    let r = expand_tilde_with(b"~/.aws/credentials", Some(b"/".to_vec()));
    assert_eq!(r.unwrap(), b"/.aws/credentials".to_vec());
}

#[test]
fn missing_home_fails_only_when_needed() {
    assert_eq!(
        expand_tilde_with(b"~/.aws/credentials", None).err(),
        Some(RotateError::PathResolution)
    );
    assert_eq!(expand_tilde_with(b"~", None).err(), Some(RotateError::PathResolution));
    assert_eq!(expand_tilde_with(b"/etc/creds", None).unwrap(), b"/etc/creds".to_vec());
}
