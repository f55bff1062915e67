use ithos::password::{self, PasswordAlg};

const PASSWORD: &str = "The Magic Words are Squeamish Ossifrage";

#[test]
fn test_password() {
    let salt = [0u8; 32];
    let mut derived_buf = vec![0u8; 32];

    password::derive(PasswordAlg::SCRYPT, &salt, PASSWORD, &mut derived_buf);

    assert!(password::verify(
        PasswordAlg::SCRYPT,
        &salt,
        PASSWORD,
        &derived_buf,
    ));
    assert!(!password::verify(
        PasswordAlg::SCRYPT,
        &salt,
        "WRONG",
        &derived_buf,
    ));
}

#[test]
fn test_generator() {
    password::generate().unwrap();
}

#[test]
fn test_bubblebabble() {
    assert_eq!(password::encode_bubblebabble(b""), b"xexax".to_vec());
    assert_eq!(
        password::encode_bubblebabble(b"abcd"),
        b"ximek-domek-gyxox".to_vec()
    );
    assert_eq!(
        password::encode_bubblebabble(b"asdf"),
        b"ximel-finek-koxex".to_vec()
    );
    assert_eq!(
        password::encode_bubblebabble(b"0123456789"),
        b"xesaf-casef-fytef-hutif-lovof-nixix".to_vec()
    );
    assert_eq!(
        password::encode_bubblebabble(b"Testing a sentence."),
        b"xihak-hysul-gapak-venyd-bumud-besek-heryl-gynek-vumuk-hyrox".to_vec()
    );
    assert_eq!(
        password::encode_bubblebabble(b"1234567890"),
        b"xesef-disof-gytuf-katof-movif-baxux".to_vec()
    );
    assert_eq!(
        password::encode_bubblebabble(b"Pineapple"),
        b"xigak-nyryk-humil-bosek-sonax".to_vec()
    );
}

#[test]
fn test_derive_deterministic() {
    let salt = [7u8; 16];
    let mut first = vec![0u8; 24];
    let mut second = vec![0u8; 24];
    password::derive(PasswordAlg::SCRYPT, &salt, "hunter2", &mut first);
    password::derive(PasswordAlg::SCRYPT, &salt, "hunter2", &mut second);
    assert_eq!(first, second);
    assert_eq!(first.len(), 24);
}

#[test]
fn test_verify_rejects_prefix_and_superset() {
    let salt = [3u8; 16];
    let mut derived = vec![0u8; 32];
    password::derive(PasswordAlg::SCRYPT, &salt, "correct horse", &mut derived);
    assert!(password::verify(
        PasswordAlg::SCRYPT,
        &salt,
        "correct horse",
        &derived
    ));
    assert!(!password::verify(
        PasswordAlg::SCRYPT,
        &salt,
        "correct",
        &derived
    ));
    assert!(!password::verify(
        PasswordAlg::SCRYPT,
        &salt,
        "correct horse battery",
        &derived
    ));
}

#[test]
fn test_random_salt_size() {
    let salt = password::random_salt().unwrap();
    assert_eq!(salt.len(), 16);
}

#[test]
fn test_generated_password_format() {
    let bytes = [0x61u8, 0x62, 0x63, 0x64, 0x65, 0x66, 0xfe, 0x07];
    let s = password::generate_from_bytes(&bytes);
    let babble = String::from_utf8(password::encode_bubblebabble(&bytes[0..6])).unwrap();
    // 0xfe % 100 = 54, 0x07 = 7
    let expected = format!("ITHOS-GENPASS-{}-54007", babble);
    assert_eq!(s, expected);
}
