//! The trust root that is put together from files of the command line:
//! Fulcio certificates as they are, Rekor public keys out of their PEM
//! armour.

use vstd::prelude::*;
use vstd::string::*;

verus! {

/// Why no trust root can be made of the files.
#[derive(Debug, Clone, PartialEq, Eq)]
pub enum TrustRootError {
    /// The Rekor key file at position `index` holds no PEM document;
    /// `reason` is what the PEM parser said.
    InvalidKey { index: usize, reason: String },
    /// A certificate without a key, or a key without a certificate.
    Incomplete,
}

impl TrustRootError {
    /// The message that the user gets to see.
    pub fn message(&self) -> (res: String)
        ensures
            *self is Incomplete ==> res@
                == "both a fulcio certificate and a rekor public key are required"@,
            *self matches TrustRootError::InvalidKey { reason, .. } ==> res@ == reason@,
    {
        match self {
            TrustRootError::Incomplete => String::from_str(
                "both a fulcio certificate and a rekor public key are required",
            ),
            TrustRootError::InvalidKey { reason, .. } => reason.clone(),
        }
    }
}

/// The certificates and keys against which signatures are checked.
#[derive(Debug, Clone, PartialEq, Eq)]
pub struct ManualTrustRoot {
    /// The Fulcio certificates, each as its file holds it.
    pub fulcio_certs: Vec<Vec<u8>>,
    /// The Rekor public keys, each as the content of a PEM document.
    pub rekor_keys: Vec<Vec<u8>>,
}

/// What the PEM parser makes of `data`: the content of the first PEM
/// document in it, or the parser's complaint.
pub uninterp spec fn pem_document(data: Seq<u8>) -> Result<Seq<u8>, Seq<char>>;

/// Calls `pem::parse` on `data` and hands out the decoded content of the
/// document (`Pem::contents`), or the text of the parser's error. Nothing
/// is claimed of the content but that it is what the parser gives for these
/// bytes, every time.
#[verifier::external_body]
fn parse_pem(data: &[u8]) -> (res: Result<Vec<u8>, String>)
    ensures
        match res {
            Ok(content) => pem_document(data@) == Ok::<Seq<u8>, Seq<char>>(content@),
            Err(reason) => pem_document(data@) == Err::<Seq<u8>, Seq<char>>(reason@),
        },
{
    match pem::parse(data) {
        Ok(document) => Ok(document.contents().to_owned()),
        Err(e) => Err(e.to_string()),
    }
}

/// Whether every one of the first `n` files holds a PEM document.
pub open spec fn all_parse(pems: Seq<Vec<u8>>, n: int) -> bool {
    forall|i: int| 0 <= i < n ==> pem_document(#[trigger] pems[i]@) is Ok
}

/// Puts a trust root together from what the files gave. A trust root needs
/// at least one certificate and at least one key.
pub fn assemble_trust_root(fulcio_certs: Vec<Vec<u8>>, rekor_keys: Vec<Vec<u8>>) -> (res: Result<
    ManualTrustRoot,
    TrustRootError,
>)
    ensures
        fulcio_certs@.len() == 0 || rekor_keys@.len() == 0 ==> res == Err::<
            ManualTrustRoot,
            TrustRootError,
        >(TrustRootError::Incomplete),
        fulcio_certs@.len() > 0 && rekor_keys@.len() > 0 ==> res == Ok::<
            ManualTrustRoot,
            TrustRootError,
        >(ManualTrustRoot { fulcio_certs, rekor_keys }),
{
    if fulcio_certs.len() == 0 || rekor_keys.len() == 0 {
        Err(TrustRootError::Incomplete)
    } else {
        Ok(ManualTrustRoot { fulcio_certs, rekor_keys })
    }
}

/// Takes the Rekor keys out of their PEM files, in order. The first file
/// that holds no PEM document fails the lot.
pub fn rekor_keys(pems: &Vec<Vec<u8>>) -> (res: Result<Vec<Vec<u8>>, TrustRootError>)
    ensures
        match res {
            Ok(keys) => {
                &&& all_parse(pems@, pems@.len() as int)
                &&& keys@.len() == pems@.len()
                &&& forall|i: int|
                    0 <= i < keys@.len() ==> pem_document(pems@[i]@) == Ok::<Seq<u8>, Seq<char>>(
                        #[trigger] keys@[i]@,
                    )
            },
            Err(e) => {
                &&& e matches TrustRootError::InvalidKey { index, reason }
                &&& index < pems@.len()
                &&& all_parse(pems@, index as int)
                &&& pem_document(pems@[index as int]@) == Err::<Seq<u8>, Seq<char>>(reason@)
            },
        },
{
    let mut keys: Vec<Vec<u8>> = Vec::new();
    let n: usize = pems.len();
    let mut i: usize = 0;
    while i < n
        invariant
            n == pems@.len(),
            i <= n,
            keys@.len() == i,
            all_parse(pems@, i as int),
            forall|j: int|
                0 <= j < i ==> pem_document(pems@[j]@) == Ok::<Seq<u8>, Seq<char>>(
                    #[trigger] keys@[j]@,
                ),
        decreases n - i,
    {
        match parse_pem(pems[i].as_slice()) {
            Ok(content) => {
                keys.push(content);
            },
            Err(reason) => {
                return Err(TrustRootError::InvalidKey { index: i, reason });
            },
        }
        i = i + 1;
    }
    Ok(keys)
}

/// Makes the trust root of the files of the command line: the Fulcio
/// certificates as they were read, the Rekor keys out of their PEM files.
/// A key file that does not parse is reported before a missing certificate
/// or key is.
pub fn manual_trust_root(fulcio_certs: Vec<Vec<u8>>, rekor_pems: &Vec<Vec<u8>>) -> (res: Result<
    ManualTrustRoot,
    TrustRootError,
>)
    ensures
        match res {
            Ok(root) => {
                &&& all_parse(rekor_pems@, rekor_pems@.len() as int)
                &&& fulcio_certs@.len() > 0
                &&& rekor_pems@.len() > 0
                &&& root.fulcio_certs == fulcio_certs
                &&& root.rekor_keys@.len() == rekor_pems@.len()
                &&& forall|i: int|
                    0 <= i < root.rekor_keys@.len() ==> pem_document(rekor_pems@[i]@) == Ok::<
                        Seq<u8>,
                        Seq<char>,
                    >(#[trigger] root.rekor_keys@[i]@)
            },
            Err(TrustRootError::InvalidKey { index, reason }) => {
                &&& index < rekor_pems@.len()
                &&& all_parse(rekor_pems@, index as int)
                &&& pem_document(rekor_pems@[index as int]@) == Err::<Seq<u8>, Seq<char>>(reason@)
            },
            Err(TrustRootError::Incomplete) => {
                &&& all_parse(rekor_pems@, rekor_pems@.len() as int)
                &&& (fulcio_certs@.len() == 0 || rekor_pems@.len() == 0)
            },
        },
{
    match rekor_keys(rekor_pems) {
        Ok(keys) => assemble_trust_root(fulcio_certs, keys),
        Err(e) => Err(e),
    }
}

} // verus!
