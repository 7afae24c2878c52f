//! What must survive restarts: the node identity and the certificate, each kept in a file.
//!
//! Clients have both hard-coded, so neither is made anew unless its file does not exist. A file
//! that cannot be read, or that holds something else, is an error and is left alone.

use crate::error::Error;
use crate::text::join;
use libp2p::identity::Keypair;
use vstd::prelude::*;

verus! {

/// What came of reading a file.
#[derive(PartialEq, Eq)]
pub enum Read {
    /// There is no such file.
    Missing,
    /// The file is there, or may be, and was not read, for the reason given.
    Failed(String),
    /// The file holds these bytes.
    Holds(Vec<u8>),
}

/// The value of a [`Read`].
pub enum ReadView {
    Missing,
    Failed(Seq<char>),
    Holds(Seq<u8>),
}

impl View for Read {
    type V = ReadView;

    open spec fn view(&self) -> ReadView {
        match *self {
            Read::Missing => ReadView::Missing,
            Read::Failed(text) => ReadView::Failed(text@),
            Read::Holds(bytes) => ReadView::Holds(bytes@),
        }
    }
}

/// Why a secret is not to be had.
#[derive(Debug, PartialEq, Eq)]
pub struct Failure {
    /// What failed.
    pub error: Error,
    /// What the failed operation reported.
    pub cause: String,
}

/// The value of a [`Failure`].
pub struct FailureView {
    pub error: Seq<char>,
    pub cause: Seq<char>,
}

impl View for Failure {
    type V = FailureView;

    open spec fn view(&self) -> FailureView {
        FailureView { error: self.error@, cause: self.cause@ }
    }
}

/// How to come by a secret that is kept in a file.
#[derive(PartialEq, Eq)]
pub enum Keep {
    /// Use what the file holds.
    Decode(Vec<u8>),
    /// Make a new one, and write it to the file.
    Generate,
    /// Give up, and leave the file alone.
    Fail(Failure),
}

/// The value of a [`Keep`].
pub enum KeepView {
    Decode(Seq<u8>),
    Generate,
    Fail(FailureView),
}

impl View for Keep {
    type V = KeepView;

    open spec fn view(&self) -> KeepView {
        match *self {
            Keep::Decode(bytes) => KeepView::Decode(bytes@),
            Keep::Generate => KeepView::Generate,
            Keep::Fail(failure) => KeepView::Fail(failure@),
        }
    }
}

/// A failure to do something with a file, put in the given words.
pub open spec fn file_failure(what: Seq<char>, path: Seq<char>, cause: Seq<char>) -> FailureView {
    FailureView { error: "failed to "@ + what + " at "@ + path, cause }
}

/// A failure to do something with a file, put in the given words.
fn file_failed(what: &str, path: &str, cause: String) -> (failure: Failure)
    ensures
        failure@ == file_failure(what@, path@, cause@),
{
    let mut message = join("failed to ", what);
    message.append(" at ");
    message.append(path);
    Failure { error: Error::new(message), cause }
}

/// What to do with a file that may hold a secret, given the words for a failure to read it.
pub open spec fn step_after_reading(
    what: Seq<char>,
    path: Seq<char>,
    file: ReadView,
) -> KeepView {
    match file {
        ReadView::Missing => KeepView::Generate,
        ReadView::Failed(cause) => KeepView::Fail(file_failure(what, path, cause)),
        ReadView::Holds(bytes) => KeepView::Decode(bytes),
    }
}

/// What to do with a file that may hold a secret, given the words for a failure to read it.
fn load_or_create(what: &str, path: &str, file: Read) -> (keep: Keep)
    ensures
        keep@ == step_after_reading(what@, path@, file@),
{
    match file {
        Read::Missing => Keep::Generate,
        Read::Failed(cause) => Keep::Fail(file_failed(what, path, cause)),
        Read::Holds(bytes) => Keep::Decode(bytes),
    }
}

/// How to come by the DTLS certificate, which is created on first run.
///
/// Its fingerprint is the `certhash` in the multiaddr: the browser pins this hash instead of
/// validating a chain.
pub fn load_or_create_certificate(path: &str, file: Read) -> (keep: Keep)
    ensures
        keep@ == step_after_reading("read certificate"@, path@, file@),
        match file {
            Read::Missing => keep is Generate,
            Read::Failed(why) => {
                &&& keep matches Keep::Fail(failure)
                &&& failure.error@ == "failed to read certificate at "@ + path@
                &&& failure.cause@ == why@
            },
            Read::Holds(bytes) => keep matches Keep::Decode(encoded) && encoded@ == bytes@,
        },
{
    let keep = load_or_create("read certificate", path, file);
    proof {
        lemma_certificate(path@, file, keep);
    }
    keep
}

/// A node identity: a key pair, as it is written to a file, and its public key, encoded.
#[derive(PartialEq, Eq)]
pub struct Identity {
    pub encoded: Vec<u8>,
    pub public: Vec<u8>,
}

/// The value of an [`Identity`].
pub struct IdentityView {
    pub encoded: Seq<u8>,
    pub public: Seq<u8>,
}

impl View for Identity {
    type V = IdentityView;

    open spec fn view(&self) -> IdentityView {
        IdentityView { encoded: self.encoded@, public: self.public@ }
    }
}

impl IdentityView {
    /// Whether the identity is that of the key pair that its encoding holds.
    pub open spec fn wf(self) -> bool {
        public_key_in(self.encoded) == Ok::<Seq<u8>, Seq<char>>(self.public)
    }
}

/// What `libp2p::identity::Keypair::from_protobuf_encoding` makes of a byte string: the public
/// key of the pair, encoded by `encode_protobuf`, or the text of its error.
pub uninterp spec fn public_key_in(bytes: Seq<u8>) -> Result<Seq<u8>, Seq<char>>;

/// `libp2p::identity::Keypair::from_protobuf_encoding`: the public key of the pair that the bytes
/// hold, encoded, or the text of its error. Both depend on the bytes alone.
#[verifier::external_body]
fn decode_keypair(bytes: &[u8]) -> (public: Result<Vec<u8>, String>)
    ensures
        match public {
            Ok(public) => public_key_in(bytes@) == Ok::<Seq<u8>, Seq<char>>(public@),
            Err(text) => public_key_in(bytes@) == Err::<Seq<u8>, Seq<char>>(text@),
        },
{
    let keypair = Keypair::from_protobuf_encoding(bytes).map_err(|e| e.to_string())?;
    Ok(keypair.public().encode_protobuf())
}

/// How to come by the node identity.
#[derive(PartialEq, Eq)]
pub enum Loaded {
    /// Use this one, which the file holds.
    Use(Identity),
    /// Make a new one, and write it to the file.
    Generate,
    /// Give up, and leave the file alone.
    Fail(Failure),
}

/// The value of a [`Loaded`].
pub enum LoadedView {
    Use(IdentityView),
    Generate,
    Fail(FailureView),
}

impl View for Loaded {
    type V = LoadedView;

    open spec fn view(&self) -> LoadedView {
        match *self {
            Loaded::Use(identity) => LoadedView::Use(identity@),
            Loaded::Generate => LoadedView::Generate,
            Loaded::Fail(failure) => LoadedView::Fail(failure@),
        }
    }
}

/// What to do with the bytes of a file, given the public key of the pair that they hold or why
/// they hold none.
pub open spec fn step_after_decoding(
    path: Seq<char>,
    encoded: Seq<u8>,
    decoded: Result<Seq<u8>, Seq<char>>,
) -> LoadedView {
    match decoded {
        Ok(public) => LoadedView::Use(IdentityView { encoded, public }),
        Err(text) => LoadedView::Fail(file_failure("decode identity"@, path, text)),
    }
}

/// What to do with the bytes of a file, given what decoding them gave.
pub fn on_decoded(path: &str, encoded: Vec<u8>, decoded: Result<Vec<u8>, String>) -> (loaded: Loaded)
    ensures
        loaded@ == step_after_decoding(
            path@,
            encoded@,
            match decoded {
                Ok(public) => Ok(public@),
                Err(text) => Err(text@),
            },
        ),
        match decoded {
            Ok(public) => {
                &&& loaded matches Loaded::Use(identity)
                &&& identity.encoded@ == encoded@
                &&& identity.public@ == public@
            },
            Err(text) => {
                &&& loaded matches Loaded::Fail(failure)
                &&& failure.error@ == "failed to "@ + "decode identity"@ + " at "@ + path@
                &&& failure.cause@ == text@
            },
        },
{
    match decoded {
        Ok(public) => Loaded::Use(Identity { encoded, public }),
        Err(text) => Loaded::Fail(file_failed("decode identity", path, text)),
    }
}

/// How a start comes by the node identity, given what its file holds.
pub open spec fn loaded_from(path: Seq<char>, file: ReadView) -> LoadedView {
    match step_after_reading("read identity"@, path, file) {
        KeepView::Decode(bytes) => step_after_decoding(path, bytes, public_key_in(bytes)),
        KeepView::Generate => LoadedView::Generate,
        KeepView::Fail(failure) => LoadedView::Fail(failure),
    }
}

/// How a start comes by the certificate, case by case.
pub proof fn lemma_certificate(path: Seq<char>, file: Read, keep: Keep)
    requires
        keep@ == step_after_reading("read certificate"@, path, file@),
    ensures
        match file {
            Read::Missing => keep is Generate,
            Read::Failed(why) => {
                &&& keep matches Keep::Fail(failure)
                &&& failure.error@ == "failed to read certificate at "@ + path
                &&& failure.cause@ == why@
            },
            Read::Holds(bytes) => keep matches Keep::Decode(encoded) && encoded@ == bytes@,
        },
{
    reveal_strlit("failed to ");
    reveal_strlit("read certificate");
    reveal_strlit(" at ");
    reveal_strlit("failed to read certificate at ");
    assert("failed to "@ + "read certificate"@ + " at "@ =~= "failed to read certificate at "@);
    assert("failed to "@ + "read certificate"@ + " at "@ + path == "failed to read certificate at "@
        + path);
}

/// How a start comes by the node identity, case by case.
pub proof fn lemma_identity(path: Seq<char>, file: Read, loaded: Loaded)
    requires
        loaded@ == loaded_from(path, file@),
    ensures
        match file {
            Read::Missing => loaded is Generate,
            Read::Failed(why) => {
                &&& loaded matches Loaded::Fail(failure)
                &&& failure.error@ == "failed to read identity at "@ + path
                &&& failure.cause@ == why@
            },
            Read::Holds(bytes) => match public_key_in(bytes@) {
                Ok(public) => {
                    &&& loaded matches Loaded::Use(identity)
                    &&& identity.encoded@ == bytes@
                    &&& identity.public@ == public
                },
                Err(text) => {
                    &&& loaded matches Loaded::Fail(failure)
                    &&& failure.error@ == "failed to decode identity at "@ + path
                    &&& failure.cause@ == text
                },
            },
        },
{
    reveal_strlit("failed to ");
    reveal_strlit("read identity");
    reveal_strlit("decode identity");
    reveal_strlit(" at ");
    reveal_strlit("failed to read identity at ");
    reveal_strlit("failed to decode identity at ");
    assert("failed to "@ + "read identity"@ + " at "@ =~= "failed to read identity at "@);
    assert("failed to "@ + "decode identity"@ + " at "@ =~= "failed to decode identity at "@);
}

/// Load the node identity, which is created on first run.
///
/// Stable across restarts by design: the peer id is part of the multiaddr that clients hard-code.
pub fn load_or_create_keypair(path: &str, file: Read) -> (loaded: Loaded)
    ensures
        loaded@ == loaded_from(path@, file@),
        loaded matches Loaded::Use(identity) ==> identity@.wf() && file@ == ReadView::Holds(
            identity@.encoded,
        ),
        match file {
            Read::Missing => loaded is Generate,
            Read::Failed(why) => {
                &&& loaded matches Loaded::Fail(failure)
                &&& failure.error@ == "failed to read identity at "@ + path@
                &&& failure.cause@ == why@
            },
            Read::Holds(bytes) => match public_key_in(bytes@) {
                Ok(public) => {
                    &&& loaded matches Loaded::Use(identity)
                    &&& identity.encoded@ == bytes@
                    &&& identity.public@ == public
                },
                Err(text) => {
                    &&& loaded matches Loaded::Fail(failure)
                    &&& failure.error@ == "failed to decode identity at "@ + path@
                    &&& failure.cause@ == text
                },
            },
        },
{
    let loaded = match load_or_create("read identity", path, file) {
        Keep::Decode(bytes) => {
            let decoded = decode_keypair(bytes.as_slice());
            on_decoded(path, bytes, decoded)
        },
        Keep::Generate => Loaded::Generate,
        Keep::Fail(failure) => Loaded::Fail(failure),
    };
    proof {
        lemma_identity(path@, file, loaded);
    }
    loaded
}

/// `libp2p::identity::Keypair::generate_ed25519`, by chance, and `to_protobuf_encoding` of the
/// pair: every such pair has an encoding, and decoding it gives back a pair with the same public
/// key.
#[verifier::external_body]
fn generate_keypair() -> (generated: Result<Identity, String>)
    ensures
        match generated {
            Ok(identity) => public_key_in(identity.encoded@) == Ok::<Seq<u8>, Seq<char>>(
                identity.public@,
            ),
            Err(_) => false,
        },
{
    let keypair = Keypair::generate_ed25519();
    let encoded = keypair.to_protobuf_encoding().map_err(|e| e.to_string())?;
    Ok(Identity { encoded, public: keypair.public().encode_protobuf() })
}

/// What to do with a new identity, given what encoding its key pair gave.
pub fn on_generated(generated: Result<Identity, String>) -> (created: Result<Identity, Failure>)
    ensures
        match generated {
            Ok(identity) => {
                &&& created matches Ok(created)
                &&& created@ == identity@
                &&& created.encoded@ == identity.encoded@
                &&& created.public@ == identity.public@
            },
            Err(text) => {
                &&& created matches Err(failure)
                &&& failure@ == (FailureView {
                    error: "failed to encode the generated identity"@,
                    cause: text@,
                })
                &&& failure.error@ == "failed to encode the generated identity"@
                &&& failure.cause@ == text@
            },
        },
{
    match generated {
        Ok(identity) => Ok(identity),
        Err(cause) => Err(
            Failure {
                error: Error::new("failed to encode the generated identity".to_owned()),
                cause,
            },
        ),
    }
}

/// Make a new node identity. Its encoding, which is to be written to the file, leads back to it.
pub fn create_keypair() -> (created: Result<Identity, Failure>)
    ensures
        created matches Ok(identity) && identity@.wf(),
        created matches Ok(identity) && public_key_in(identity.encoded@) == Ok::<
            Seq<u8>,
            Seq<char>,
        >(identity.public@),
{
    on_generated(generate_keypair())
}

} // verus!
