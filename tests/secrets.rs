use tuckr::dotfiles::ReturnCode;
use tuckr::secrets::{frame_secret, split_secret, SecretsHandler, KEY_LEN, NONCE_LEN};

#[test]
fn key_is_sha256_of_password() {
    let h = SecretsHandler::try_new("abc").unwrap();
    let expected: Vec<u8> = vec![
        0xba, 0x78, 0x16, 0xbf, 0x8f, 0x01, 0xcf, 0xea, 0x41, 0x41, 0x40, 0xde, 0x5d, 0xae, 0x22, 0x23,
        0xb0, 0x03, 0x61, 0xa3, 0x96, 0x17, 0x7a, 0x9c, 0xb4, 0x10, 0xff, 0x61, 0xf2, 0x00, 0x15, 0xad,
    ];
    assert_eq!(h.key, expected);
    assert_eq!(h.key.len(), KEY_LEN);
    assert_eq!(h.nonce.len(), NONCE_LEN);
}

#[test]
fn encrypt_then_decrypt() {
    let h = SecretsHandler::try_new("password").unwrap();
    let plain = b"export TOKEN=abc".to_vec();
    let sealed = h.encrypt(&plain).unwrap();
    assert_ne!(sealed, plain);
    assert_eq!(sealed.len(), plain.len() + 16);
    let file = h.seal_file(&plain).unwrap();
    assert_eq!(&file[..NONCE_LEN], &h.nonce[..]);
    assert_eq!(h.decrypt(&file), Ok(plain));
}

#[test]
fn decrypt_rejects_bad_input() {
    let h = SecretsHandler::try_new("password").unwrap();
    assert_eq!(h.decrypt(&vec![1, 2, 3]), Err(ReturnCode::DecryptionFailed));
    let mut file = h.seal_file(&b"data".to_vec()).unwrap();
    let last = file.len() - 1;
    file[last] ^= 1;
    assert_eq!(h.decrypt(&file), Err(ReturnCode::DecryptionFailed));
    let other = SecretsHandler::try_new("other").unwrap();
    let file = h.seal_file(&b"data".to_vec()).unwrap();
    assert_eq!(other.decrypt(&file), Err(ReturnCode::DecryptionFailed));
}

#[test]
fn frame_and_split() {
    let nonce: Vec<u8> = (0..24).collect();
    let framed = frame_secret(&nonce, &vec![9, 8]);
    assert_eq!(framed.len(), 26);
    assert_eq!(split_secret(&framed), Some((nonce, vec![9, 8])));
    assert_eq!(split_secret(&vec![0; 23]), None);
    assert_eq!(split_secret(&vec![0; 24]), Some((vec![0; 24], Vec::new())));
}
