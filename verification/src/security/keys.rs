//! Session keys: the control-channel and media keys, each derived from the
//! shared secret of the pairing by HKDF-SHA256 (no salt) with its own
//! context string.

use hkdf::Hkdf;
use sha2::Sha256;
use vstd::prelude::*;
use vstd::string::StringSliceAdditionalSpecFns;

verus! {

/// The 32 output bytes of HKDF-SHA256, without salt, for input key material
/// `ikm` and context `info`.
pub uninterp spec fn hkdf_sha256_okm32(ikm: Seq<u8>, info: Seq<u8>) -> Seq<u8>;

/// `Hkdf::<Sha256>::new(None, ikm)` followed by `expand(info, ..)` into 32
/// bytes.  The contract names the output and says nothing more of it; 32
/// bytes is below the 255 * 32 limit of `expand`, so the call never fails.
#[verifier::external_body]
fn hkdf_sha256_expand32(ikm: &[u8], info: &[u8]) -> (okm: [u8; 32])
    ensures
        okm@ == hkdf_sha256_okm32(ikm@, info@),
{
    let hk = Hkdf::<Sha256>::new(None, ikm);
    let mut okm = [0u8; 32];
    hk.expand(info, &mut okm).expect("32 bytes is a valid HKDF-SHA256 output length");
    okm
}

/// Context string of the control-channel key.
pub open spec fn control_info() -> Seq<u8> {
    "screenmirror-control-v1".spec_bytes()
}

/// Context string of the media key.
pub open spec fn media_info() -> Seq<u8> {
    "screenmirror-media-v1".spec_bytes()
}

pub struct SessionKeys {
    pub control_key: [u8; 32],
    pub media_key: [u8; 32],
}

impl SessionKeys {
    /// Derives the control and media keys from a shared secret.
    pub fn derive(shared_secret: &[u8]) -> (keys: Self)
        ensures
            keys.control_key@ == hkdf_sha256_okm32(shared_secret@, control_info()),
            keys.media_key@ == hkdf_sha256_okm32(shared_secret@, media_info()),
    {
        let control_key = hkdf_sha256_expand32(
            shared_secret,
            "screenmirror-control-v1".as_bytes(),
        );
        let media_key = hkdf_sha256_expand32(shared_secret, "screenmirror-media-v1".as_bytes());
        SessionKeys { control_key, media_key }
    }
}

} // verus!
