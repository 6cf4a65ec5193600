//! Encrypted secrets: a key derived from a password, files sealed with
//! XChaCha20-Poly1305 and stored behind the nonce they were sealed with.
use vstd::prelude::*;
use crate::dotfiles::ReturnCode;
use vstd::string::{StringSliceAdditionalSpecFns, StrSliceExecFns};

verus! {

/// Bytes in a nonce.
pub const NONCE_LEN: usize = 24;

/// Bytes in a key.
pub const KEY_LEN: usize = 32;

/// The SHA-256 digest of `data`.
pub uninterp spec fn sha256_of(data: Seq<u8>) -> Seq<u8>;

/// XChaCha20-Poly1305 encryption of `plain` under `key` and `nonce`, or
/// `None` where the cipher refuses the message.
pub uninterp spec fn xchacha_seal(key: Seq<u8>, nonce: Seq<u8>, plain: Seq<u8>) -> Option<Seq<u8>>;

/// XChaCha20-Poly1305 decryption of `sealed` under `key` and `nonce`, or
/// `None` where it does not authenticate.
pub uninterp spec fn xchacha_open(key: Seq<u8>, nonce: Seq<u8>, sealed: Seq<u8>) -> Option<Seq<u8>>;

/// Relies on sha2::Sha256::digest (through digest::Digest): the SHA-256
/// digest of the bytes, which is 32 bytes long.
#[verifier::external_body]
fn sha256(data: &[u8]) -> (r: Vec<u8>)
    ensures
        r@ == sha256_of(data@),
        r@.len() == KEY_LEN,
{
    <sha2::Sha256 as sha2::Digest>::digest(data).to_vec()
}

/// Relies on chacha20poly1305::XChaCha20Poly1305 with aead::Aead::encrypt:
/// the sealed message, or the cipher's error (a message too long). Key and
/// nonce must have the cipher's sizes, else `from_slice` panics.
#[verifier::external_body]
fn xchacha_encrypt(key: &[u8], nonce: &[u8], plain: &[u8]) -> (r: Option<Vec<u8>>)
    requires
        key@.len() == KEY_LEN,
        nonce@.len() == NONCE_LEN,
    ensures
        match r {
            Some(c) => xchacha_seal(key@, nonce@, plain@) == Some(c@),
            None => xchacha_seal(key@, nonce@, plain@) is None,
        },
{
    let cipher = <chacha20poly1305::XChaCha20Poly1305 as chacha20poly1305::KeyInit>::new(
        chacha20poly1305::Key::from_slice(key),
    );
    chacha20poly1305::aead::Aead::encrypt(&cipher, chacha20poly1305::XNonce::from_slice(nonce), plain).ok()
}

/// Relies on chacha20poly1305::XChaCha20Poly1305 with aead::Aead::decrypt:
/// the opened message, or the cipher's error (the tag does not verify).
/// Key and nonce must have the cipher's sizes, else `from_slice` panics.
#[verifier::external_body]
fn xchacha_decrypt(key: &[u8], nonce: &[u8], sealed: &[u8]) -> (r: Option<Vec<u8>>)
    requires
        key@.len() == KEY_LEN,
        nonce@.len() == NONCE_LEN,
    ensures
        match r {
            Some(p) => xchacha_open(key@, nonce@, sealed@) == Some(p@),
            None => xchacha_open(key@, nonce@, sealed@) is None,
        },
{
    let cipher = <chacha20poly1305::XChaCha20Poly1305 as chacha20poly1305::KeyInit>::new(
        chacha20poly1305::Key::from_slice(key),
    );
    chacha20poly1305::aead::Aead::decrypt(&cipher, chacha20poly1305::XNonce::from_slice(nonce), sealed).ok()
}

/// Relies on rand::rngs::OsRng's try_fill_bytes: `len` bytes from the
/// operating system's generator, or nothing where the generator fails.
#[verifier::external_body]
fn random_bytes(len: usize) -> (r: Option<Vec<u8>>)
    ensures
        r is Some ==> r->0@.len() == len,
{
    let mut bytes = vec![0u8; len];
    match rand::RngCore::try_fill_bytes(&mut rand::rngs::OsRng, &mut bytes) {
        Ok(()) => Some(bytes),
        Err(_) => None,
    }
}

/// A sealed secret as stored on disk: the nonce, then the sealed message.
pub fn frame_secret(nonce: &Vec<u8>, sealed: &Vec<u8>) -> (r: Vec<u8>)
    ensures
        r@ == nonce@ + sealed@,
{
    let mut out: Vec<u8> = Vec::new();
    let mut i: usize = 0;
    while i < nonce.len()
        invariant
            0 <= i <= nonce.len(),
            out@ == nonce@.take(i as int),
        decreases nonce.len() - i,
    {
        out.push(nonce[i]);
        assert(nonce@.take(i + 1) =~= nonce@.take(i as int).push(nonce@[i as int]));
        i += 1;
    }
    let mut j: usize = 0;
    assert(nonce@.take(nonce.len() as int) =~= nonce@);
    assert(sealed@.take(0) =~= Seq::<u8>::empty());
    while j < sealed.len()
        invariant
            0 <= j <= sealed.len(),
            out@ == nonce@ + sealed@.take(j as int),
        decreases sealed.len() - j,
    {
        out.push(sealed[j]);
        assert(sealed@.take(j + 1) =~= sealed@.take(j as int).push(sealed@[j as int]));
        assert(nonce@ + sealed@.take(j + 1) =~= (nonce@ + sealed@.take(j as int)).push(sealed@[j as int]));
        j += 1;
    }
    assert(sealed@.take(sealed.len() as int) =~= sealed@);
    out
}

/// The nonce and the sealed message of a stored secret, or `None` when it
/// is shorter than a nonce.
pub fn split_secret(file: &Vec<u8>) -> (r: Option<(Vec<u8>, Vec<u8>)>)
    ensures
        match r {
            Some(parts) => file@.len() >= NONCE_LEN && parts.0@ == file@.subrange(0, NONCE_LEN as int)
                && parts.1@ == file@.subrange(NONCE_LEN as int, file@.len() as int),
            None => file@.len() < NONCE_LEN,
        },
{
    if file.len() < NONCE_LEN {
        return None;
    }
    let mut nonce: Vec<u8> = Vec::new();
    let mut sealed: Vec<u8> = Vec::new();
    let mut i: usize = 0;
    while i < file.len()
        invariant
            NONCE_LEN <= file.len(),
            0 <= i <= file.len(),
            i <= NONCE_LEN ==> nonce@ == file@.subrange(0, i as int) && sealed@.len() == 0,
            i > NONCE_LEN ==> nonce@ == file@.subrange(0, NONCE_LEN as int) && sealed@ == file@.subrange(
                NONCE_LEN as int,
                i as int,
            ),
        decreases file.len() - i,
    {
        if i < NONCE_LEN {
            nonce.push(file[i]);
            assert(file@.subrange(0, i + 1) =~= file@.subrange(0, i as int).push(file@[i as int]));
        } else {
            sealed.push(file[i]);
            assert(file@.subrange(NONCE_LEN as int, i + 1) =~= file@.subrange(NONCE_LEN as int, i as int).push(file@[i as int]));
        }
        i += 1;
    }
    assert(file@.subrange(NONCE_LEN as int, NONCE_LEN as int) =~= Seq::<u8>::empty());
    Some((nonce, sealed))
}

/// The key and nonce that secrets are sealed with.
#[derive(Clone, Debug, PartialEq, Eq)]
pub struct SecretsHandler {
    pub key: Vec<u8>,
    pub nonce: Vec<u8>,
}

impl SecretsHandler {
    /// Key and nonce have the cipher's sizes.
    pub open spec fn wf(&self) -> bool {
        self.key@.len() == KEY_LEN && self.nonce@.len() == NONCE_LEN
    }

    /// A handler whose key is the SHA-256 digest of the password's bytes,
    /// with a fresh random nonce; `EncryptionFailed` when no random nonce
    /// can be had.
    pub fn try_new(password: &str) -> (r: Result<SecretsHandler, ReturnCode>)
        ensures
            r is Ok ==> r->Ok_0.wf() && r->Ok_0.key@ == sha256_of(password.spec_bytes()),
            r is Err ==> r->Err_0 == ReturnCode::EncryptionFailed,
    {
        let bytes = password.as_bytes_vec();
        let key = sha256(bytes.as_slice());
        match random_bytes(NONCE_LEN) {
            Some(nonce) => Ok(SecretsHandler { key, nonce }),
            None => Err(ReturnCode::EncryptionFailed),
        }
    }

    /// The sealed form of `plain`, or `EncryptionFailed` where the cipher
    /// refuses it.
    pub fn encrypt(&self, plain: &Vec<u8>) -> (r: Result<Vec<u8>, ReturnCode>)
        requires
            self.wf(),
        ensures
            match r {
                Ok(c) => xchacha_seal(self.key@, self.nonce@, plain@) == Some(c@),
                Err(e) => xchacha_seal(self.key@, self.nonce@, plain@) is None && e == ReturnCode::EncryptionFailed,
            },
    {
        match xchacha_encrypt(self.key.as_slice(), self.nonce.as_slice(), plain.as_slice()) {
            Some(c) => Ok(c),
            None => Err(ReturnCode::EncryptionFailed),
        }
    }

    /// What is stored for `plain`: the nonce, then the sealed message.
    pub fn seal_file(&self, plain: &Vec<u8>) -> (r: Result<Vec<u8>, ReturnCode>)
        requires
            self.wf(),
        ensures
            match r {
                Ok(f) => exists|c: Seq<u8>| xchacha_seal(self.key@, self.nonce@, plain@) == Some(c) && f@ == self.nonce@ + c,
                Err(e) => xchacha_seal(self.key@, self.nonce@, plain@) is None && e == ReturnCode::EncryptionFailed,
            },
    {
        match self.encrypt(plain) {
            Ok(c) => Ok(frame_secret(&self.nonce, &c)),
            Err(e) => Err(e),
        }
    }

    /// Opens a stored secret with this handler's key and the nonce stored in
    /// front of it; `DecryptionFailed` when it is shorter than a nonce or does
    /// not authenticate.
    pub fn decrypt(&self, file: &Vec<u8>) -> (r: Result<Vec<u8>, ReturnCode>)
        requires
            self.wf(),
        ensures
            file@.len() < NONCE_LEN ==> r == Err::<Vec<u8>, ReturnCode>(ReturnCode::DecryptionFailed),
            file@.len() >= NONCE_LEN ==> match xchacha_open(
                self.key@,
                file@.subrange(0, NONCE_LEN as int),
                file@.subrange(NONCE_LEN as int, file@.len() as int),
            ) {
                Some(p) => r is Ok && r->Ok_0@ == p,
                None => r == Err::<Vec<u8>, ReturnCode>(ReturnCode::DecryptionFailed),
            },
    {
        match split_secret(file) {
            None => Err(ReturnCode::DecryptionFailed),
            Some((nonce, sealed)) => match xchacha_decrypt(self.key.as_slice(), nonce.as_slice(), sealed.as_slice()) {
                Some(p) => Ok(p),
                None => Err(ReturnCode::DecryptionFailed),
            },
        }
    }
}

} // verus!
