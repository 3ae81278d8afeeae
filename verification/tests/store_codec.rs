use key_rotate::codec::parse;
use key_rotate::codec::serialize;
use key_rotate::errors::RotateError;
use key_rotate::store::CredentialFile;
use key_rotate::store::bytes_eq;

const MARKER: &[u8] = b"another_default";

fn load(text: &[u8]) -> CredentialFile {
    parse(text, MARKER).unwrap()
}

#[test]
fn load_then_write_reproduces_canonical_file() {
    let text = b"[default]\naws_access_key_id = AKIA\naws_secret_access_key = shh\n";
    let file = load(text);
    assert_eq!(serialize(&file, MARKER), text.to_vec());
}

#[test]
fn no_header_entries_round_trip_without_gaining_a_header() {
    let text = b"aws_access_key_id = AKIA\naws_secret_access_key = shh\n";
    let file = load(text);
    let out = serialize(&file, MARKER);
    assert_eq!(out, text.to_vec());
    assert!(!out.contains(&b'['));
}

#[test]
fn comments_blank_lines_and_padding_are_normalised() {
    let text = b"; a comment\n\n[ default ]\n  aws_access_key_id   =   AKIA  \n# more\n";
    let file = load(text);
    assert_eq!(
        serialize(&file, MARKER),
        b"[default]\naws_access_key_id = AKIA\n".to_vec()
    );
}

#[test]
fn values_may_contain_equals_signs() {
    let file = load(b"[s]\ntoken = abc==def\n");
    assert_eq!(file.get(b"s", b"token"), Some(b"abc==def".to_vec()));
}

#[test]
fn line_without_equals_is_a_parse_error() {
    assert_eq!(parse(b"[s]\nnonsense\n", MARKER).err(), Some(RotateError::Parse));
}

#[test]
fn unterminated_header_is_a_parse_error() {
    assert_eq!(parse(b"[oops\n", MARKER).err(), Some(RotateError::Parse));
}

#[test]
fn duplicate_section_is_a_parse_error() {
    assert_eq!(parse(b"[a]\n[b]\n[a]\n", MARKER).err(), Some(RotateError::Parse));
}

#[test]
fn duplicate_key_in_section_is_a_parse_error() {
    assert_eq!(parse(b"[a]\nk = 1\nk = 2\n", MARKER).err(), Some(RotateError::Parse));
}

#[test]
fn reserved_marker_header_is_a_parse_error() {
    assert_eq!(
        parse(b"[another_default]\nk = v\n", MARKER).err(),
        Some(RotateError::Parse)
    );
}

#[test]
fn empty_input_is_an_empty_file() {
    let file = load(b"");
    assert_eq!(serialize(&file, MARKER), Vec::<u8>::new());
}

#[test]
fn get_absent_section_or_key_is_none() {
    let file = load(b"[a]\nk = v\n");
    assert_eq!(file.get(b"b", b"k"), None);
    assert_eq!(file.get(b"a", b"missing"), None);
}

#[test]
fn set_updates_in_place_and_appends() {
    let mut file = load(b"[a]\nk = v\nj = w\n");
    file.set(b"a".to_vec(), b"k".to_vec(), b"v2".to_vec());
    file.set(b"a".to_vec(), b"x".to_vec(), b"y".to_vec());
    file.set(b"b".to_vec(), b"k".to_vec(), b"z".to_vec());
    assert_eq!(
        serialize(&file, MARKER),
        b"[a]\nk = v2\nj = w\nx = y\n[b]\nk = z\n".to_vec()
    );
}

#[test]
fn empty_value_round_trips() {
    let file = load(b"[a]\nk =\n");
    assert_eq!(file.get(b"a", b"k"), Some(Vec::new()));
    assert_eq!(serialize(&file, MARKER), b"[a]\nk = \n".to_vec());
    let again = load(&serialize(&file, MARKER));
    assert_eq!(again.get(b"a", b"k"), Some(Vec::new()));
}

#[test]
fn bytes_eq_compares_contents() {
    assert!(bytes_eq(b"abc", b"abc"));
    assert!(!bytes_eq(b"abc", b"abd"));
    assert!(!bytes_eq(b"abc", b"ab"));
    assert!(bytes_eq(b"", b""));
}
