use vstd::prelude::*;

verus! {

/// Length in bytes of a secretbox nonce.
pub const NONCE_LEN: usize = 24;

/// Length in bytes of a secretbox secret key.
pub const KEY_LEN: usize = 32;

/// Length in bytes of the authentication tag that secretbox appends.
pub const MAC_LEN: usize = 16;

/// The ciphertext that sodiumoxide's `secretbox::seal` produces for a given
/// key, nonce and message. `seal` is a deterministic function of these three
/// arguments, so its result can be given a name that contracts share.
pub uninterp spec fn seal_of(key: Seq<u8>, nonce: Seq<u8>, msg: Seq<u8>) -> Seq<u8>;

/// A blob as produced by [`CryptoManager::encrypt`]: a fixed-length nonce
/// prefix followed by the authenticated ciphertext of `msg` under `key`.
pub open spec fn is_sealed_blob(key: Seq<u8>, blob: Seq<u8>, msg: Seq<u8>) -> bool {
    &&& blob.len() >= NONCE_LEN
    &&& blob.subrange(NONCE_LEN as int, blob.len() as int) == seal_of(
        key,
        blob.subrange(0, NONCE_LEN as int),
        msg,
    )
}

/// Decryption failures, as the caller must distinguish them.
#[derive(Clone, Copy, Debug, PartialEq, Eq, Structural)]
pub enum DecryptionError {
    /// The authenticated ciphertext did not verify: the blob was tampered
    /// with, corrupted, or encrypted under a different key.
    AuthenticationFailed,
    /// The blob is shorter than the fixed-length nonce prefix.
    Malformed,
}

/// Relies on sodiumoxide::init: readies the library; its failure leaves
/// later calls safe but slower, so the result is ignored, as the callers here
/// never read it.
#[verifier::external_body]
fn init_sodium() {
    let _ = sodiumoxide::init();
}

/// Relies on sodiumoxide's secretbox::gen_key: a randomly generated 32-byte
/// key. Nothing more can be promised of a random value.
#[verifier::external_body]
fn gen_key_bytes() -> (r: Vec<u8>)
    ensures
        r@.len() == KEY_LEN,
{
    sodiumoxide::crypto::secretbox::gen_key().0.to_vec()
}

/// Relies on sodiumoxide's secretbox::gen_nonce: a randomly generated
/// 24-byte nonce. Nothing more can be promised of a random value.
#[verifier::external_body]
fn gen_nonce_bytes() -> (r: Vec<u8>)
    ensures
        r@.len() == NONCE_LEN,
{
    sodiumoxide::crypto::secretbox::gen_nonce().0.to_vec()
}

/// Relies on sodiumoxide's secretbox::seal: encrypts and authenticates `msg`
/// under (key, nonce), deterministically, returning the message length plus
/// a 16-byte tag.
#[verifier::external_body]
fn seal_bytes(msg: &[u8], nonce: &Vec<u8>, key: &Vec<u8>) -> (r: Vec<u8>)
    requires
        nonce@.len() == NONCE_LEN,
        key@.len() == KEY_LEN,
    ensures
        r@ == seal_of(key@, nonce@, msg@),
        r@.len() == msg@.len() + MAC_LEN,
{
    let n = sodiumoxide::crypto::secretbox::Nonce::from_slice(nonce).unwrap();
    let k = sodiumoxide::crypto::secretbox::Key::from_slice(key).unwrap();
    sodiumoxide::crypto::secretbox::seal(msg, &n, &k)
}

/// Relies on sodiumoxide's secretbox::open: verifies and decrypts a
/// ciphertext. It returns the original message for a ciphertext that `seal`
/// produced under the same key and nonce, and fails on any other input.
#[verifier::external_body]
fn open_bytes(ct: &[u8], nonce: &Vec<u8>, key: &Vec<u8>) -> (r: Option<Vec<u8>>)
    requires
        nonce@.len() == NONCE_LEN,
        key@.len() == KEY_LEN,
    ensures
        r matches Some(p) ==> ct@ == seal_of(key@, nonce@, p@),
        r matches Some(p) ==> forall|m: Seq<u8>| ct@ == seal_of(key@, nonce@, m) ==> p@ == m,
        r is None ==> forall|m: Seq<u8>| ct@ != seal_of(key@, nonce@, m),
{
    let n = sodiumoxide::crypto::secretbox::Nonce::from_slice(nonce).unwrap();
    let k = sodiumoxide::crypto::secretbox::Key::from_slice(key).unwrap();
    sodiumoxide::crypto::secretbox::open(ct, &n, &k).ok()
}

/// Owner of one device's symmetric key, together with the nonce used by the
/// most recent encryption. Every call of [`CryptoManager::encrypt`] draws a
/// brand-new random nonce and prefixes it to the ciphertext, so a blob is
/// self-describing and no nonce is ever reused under the key.
pub struct CryptoManager {
    symkey: Vec<u8>,
    symnonce: Vec<u8>,
}

impl CryptoManager {
    /// The symmetric key, as the contracts speak of it.
    pub closed spec fn key(&self) -> Seq<u8> {
        self.symkey@
    }

    /// The nonce used by the most recent encryption.
    pub closed spec fn nonce(&self) -> Seq<u8> {
        self.symnonce@
    }

    /// Key and nonce have the fixed lengths of the cipher construction.
    pub open spec fn wf(&self) -> bool {
        &&& self.key().len() == KEY_LEN
        &&& self.nonce().len() == NONCE_LEN
    }

    /// Generates a fresh random key and an initial nonce. To be called once
    /// per device identity: a regenerated key cannot read earlier blobs.
    pub fn new() -> (r: CryptoManager)
        ensures
            r.wf(),
    {
        init_sodium();
        CryptoManager { symkey: gen_key_bytes(), symnonce: gen_nonce_bytes() }
    }

    /// Readies the crypto library. The constructor calls this itself.
    pub fn init() {
        init_sodium();
    }

    /// Replaces the stored nonce with a freshly generated one. `encrypt`
    /// does this itself before every encryption.
    pub fn new_nonce(&mut self)
        requires
            old(self).wf(),
        ensures
            final(self).wf(),
            final(self).key() == old(self).key(),
    {
        self.symnonce = gen_nonce_bytes();
    }

    /// Seals `plaintext` under the key and a brand-new random nonce, and
    /// returns the nonce followed by the authenticated ciphertext. The
    /// underlying primitive cannot report failure, so neither does this.
    pub fn encrypt(&mut self, plaintext: &[u8]) -> (r: Vec<u8>)
        requires
            old(self).wf(),
        ensures
            final(self).wf(),
            final(self).key() == old(self).key(),
            r@.len() == plaintext@.len() + NONCE_LEN + MAC_LEN,
            r@.subrange(0, NONCE_LEN as int) == final(self).nonce(),
            is_sealed_blob(final(self).key(), r@, plaintext@),
    {
        self.new_nonce();
        let ct = seal_bytes(plaintext, &self.symnonce, &self.symkey);
        let mut out: Vec<u8> = Vec::new();
        let mut i: usize = 0;
        while i < NONCE_LEN
            invariant
                i <= NONCE_LEN,
                self.wf(),
                out@ == self.nonce().subrange(0, i as int),
            decreases NONCE_LEN - i,
        {
            out.push(self.symnonce[i]);
            i += 1;
        }
        proof {
            assert(out@ == self.nonce());
        }
        let mut j: usize = 0;
        while j < ct.len()
            invariant
                j <= ct@.len(),
                out@ == self.nonce() + ct@.subrange(0, j as int),
            decreases ct@.len() - j,
        {
            out.push(ct[j]);
            j += 1;
        }
        proof {
            assert(out@ == self.nonce() + ct@);
            assert(out@.subrange(0, NONCE_LEN as int) =~= self.nonce());
            assert(out@.subrange(NONCE_LEN as int, out@.len() as int) =~= ct@);
        }
        out
    }


    /// The symmetric key's 32 bytes, for the out-of-band persistence and
    /// sharing that lets every device of one identity read the same data.
    pub fn export_key(&self) -> (r: Vec<u8>)
        requires
            self.wf(),
        ensures
            r@ == self.key(),
    {
        let mut out: Vec<u8> = Vec::new();
        let mut i: usize = 0;
        while i < self.symkey.len()
            invariant
                i <= self.key().len(),
                self.wf(),
                out@ == self.key().subrange(0, i as int),
            decreases self.key().len() - i,
        {
            out.push(self.symkey[i]);
            i += 1;
        }
        proof {
            assert(out@ =~= self.key());
        }
        out
    }

    /// Rebuilds a context around a key exported by another device, with a
    /// fresh initial nonce. A byte string of the wrong length is no key.
    pub fn from_key(key: Vec<u8>) -> (r: Option<CryptoManager>)
        ensures
            r matches Some(cm) ==> cm.wf() && cm.key() == key@,
            r is Some <==> key@.len() == KEY_LEN,
    {
        if key.len() != KEY_LEN {
            return None;
        }
        init_sodium();
        Some(CryptoManager { symkey: key, symnonce: gen_nonce_bytes() })
    }

    /// Splits the fixed-length nonce prefix off `blob` and opens the rest
    /// under (key, extracted nonce). A blob that `encrypt` produced for a
    /// message `m` under this key yields `Ok(m)`; a blob shorter than the
    /// nonce is `Malformed`; anything else fails authentication.
    pub fn decrypt(&self, blob: &[u8]) -> (r: Result<Vec<u8>, DecryptionError>)
        requires
            self.wf(),
        ensures
            blob@.len() < NONCE_LEN ==> r == Result::<Vec<u8>, DecryptionError>::Err(
                DecryptionError::Malformed,
            ),
            r matches Ok(p) ==> is_sealed_blob(self.key(), blob@, p@),
            r matches Ok(p) ==> forall|m: Seq<u8>|
                is_sealed_blob(self.key(), blob@, m) ==> p@ == m,
            r is Err ==> forall|m: Seq<u8>| !is_sealed_blob(self.key(), blob@, m),
            r is Err ==> (r == Result::<Vec<u8>, DecryptionError>::Err(DecryptionError::Malformed)
                <==> blob@.len() < NONCE_LEN),
    {
        if blob.len() < NONCE_LEN {
            return Err(DecryptionError::Malformed);
        }
        let mut nonce: Vec<u8> = Vec::new();
        let mut i: usize = 0;
        while i < NONCE_LEN
            invariant
                i <= NONCE_LEN,
                blob@.len() >= NONCE_LEN,
                nonce@ == blob@.subrange(0, i as int),
            decreases NONCE_LEN - i,
        {
            nonce.push(blob[i]);
            i += 1;
        }
        let mut ct: Vec<u8> = Vec::new();
        let mut j: usize = NONCE_LEN;
        while j < blob.len()
            invariant
                NONCE_LEN <= j <= blob@.len(),
                nonce@ == blob@.subrange(0, NONCE_LEN as int),
                ct@ == blob@.subrange(NONCE_LEN as int, j as int),
            decreases blob@.len() - j,
        {
            ct.push(blob[j]);
            j += 1;
        }
        proof {
            assert(ct@ =~= blob@.subrange(NONCE_LEN as int, blob@.len() as int));
        }
        match open_bytes(ct.as_slice(), &nonce, &self.symkey) {
            Some(p) => Ok(p),
            None => Err(DecryptionError::AuthenticationFailed),
        }
    }
}


/// Law — round trip. For every plaintext `p`: a blob of the shape that
/// `encrypt` guarantees for `p` under a key forces any result that meets
/// `decrypt`'s contract for that blob and key to be exactly `Ok(p)`. The
/// hypotheses are precisely what the two functions' contracts state, so
/// composing an encryption with a decryption under one context returns the
/// plaintext unchanged.
pub proof fn lemma_encrypt_then_decrypt(
    key: Seq<u8>,
    blob: Seq<u8>,
    p: Seq<u8>,
    r: Result<Vec<u8>, DecryptionError>,
)
    requires
        is_sealed_blob(key, blob, p),
        r matches Ok(q) ==> is_sealed_blob(key, blob, q@),
        r matches Ok(q) ==> forall|m: Seq<u8>| is_sealed_blob(key, blob, m) ==> q@ == m,
        r is Err ==> forall|m: Seq<u8>| !is_sealed_blob(key, blob, m),
    ensures
        r matches Ok(q) && q@ == p,
{
}

} // verus!
