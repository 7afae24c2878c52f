//! What holds of what is kept across restarts.

use vstd::prelude::*;

verus! {

use crate::identity::{lemma_certificate, lemma_identity, loaded_from, public_key_in, step_after_reading, IdentityView, Keep, KeepView, Loaded, LoadedView, Read, ReadView};

/// A start of an endpoint: why its file cannot be read, if so, and the secret that it would make.
pub struct Start {
    pub failure: Option<Seq<char>>,
    pub fresh: Seq<u8>,
}

/// What a start finds of a file that holds given bytes or does not exist.
pub open spec fn found(file: Option<Seq<u8>>, start: Start) -> ReadView {
    match (start.failure, file) {
        (Some(why), _) => ReadView::Failed(why),
        (None, Some(bytes)) => ReadView::Holds(bytes),
        (None, None) => ReadView::Missing,
    }
}

/// What a start does about its secret, where a failure to read it is put in the given words.
pub open spec fn decided(
    what: Seq<char>,
    path: Seq<char>,
    file: Option<Seq<u8>>,
    start: Start,
) -> KeepView {
    step_after_reading(what, path, found(file, start))
}

/// The secret that a start uses, if it comes by one.
pub open spec fn used(
    what: Seq<char>,
    path: Seq<char>,
    file: Option<Seq<u8>>,
    start: Start,
) -> Option<Seq<u8>> {
    match decided(what, path, file, start) {
        KeepView::Decode(bytes) => Some(bytes),
        KeepView::Generate => Some(start.fresh),
        KeepView::Fail(_) => None,
    }
}

/// What the file holds after a start.
pub open spec fn left(
    what: Seq<char>,
    path: Seq<char>,
    file: Option<Seq<u8>>,
    start: Start,
) -> Option<Seq<u8>> {
    if decided(what, path, file, start) is Generate {
        Some(start.fresh)
    } else {
        file
    }
}

/// What the file holds after several starts.
pub open spec fn left_by_all(
    what: Seq<char>,
    path: Seq<char>,
    file: Option<Seq<u8>>,
    starts: Seq<Start>,
) -> Option<Seq<u8>>
    decreases starts.len(),
{
    if starts.len() == 0 {
        file
    } else {
        left(what, path, left_by_all(what, path, file, starts.drop_last()), starts.last())
    }
}

/// A file that holds something is left alone.
proof fn lemma_file_kept(
    what: Seq<char>,
    path: Seq<char>,
    file: Option<Seq<u8>>,
    starts: Seq<Start>,
)
    requires
        file is Some,
    ensures
        left_by_all(what, path, file, starts) == file,
    decreases starts.len(),
{
    if starts.len() > 0 {
        lemma_file_kept(what, path, file, starts.drop_last());
    }
}

/// A secret survives restarts: once a start came by one, every later start uses the same, whatever
/// it would have made itself, or fails because it cannot read the file. In between, starts that
/// cannot read the file do it no harm.
pub proof fn law_a_secret_survives_restarts(
    what: Seq<char>,
    path: Seq<char>,
    file: Option<Seq<u8>>,
    first: Start,
    between: Seq<Start>,
    last: Start,
)
    requires
        used(what, path, file, first) is Some,
    ensures
        ({
            let later = left_by_all(what, path, left(what, path, file, first), between);
            used(what, path, later, last) == if last.failure is Some {
                None
            } else {
                used(what, path, file, first)
            }
        }),
{
    lemma_file_kept(what, path, left(what, path, file, first), between);
}

/// A node identity survives restarts: a start that can read the file uses the identity that was
/// used before, the pair as well as its public key, and leaves the file as it is. It does not
/// matter whether that identity was loaded or was made, and then written to the file.
pub proof fn law_an_identity_survives_restarts(
    path: Seq<char>,
    file: Option<Seq<u8>>,
    first: Start,
    identity: IdentityView,
    between: Seq<Start>,
    last: Start,
)
    requires
        match loaded_from(path, found(file, first)) {
            LoadedView::Use(loaded) => loaded == identity,
            LoadedView::Generate => identity.wf() && first.fresh == identity.encoded,
            LoadedView::Fail(_) => false,
        },
        last.failure is None,
    ensures
        ({
            let what = "read identity"@;
            let kept = left(what, path, file, first);
            let later = left_by_all(what, path, kept, between);
            &&& kept == Some(identity.encoded)
            &&& loaded_from(path, found(later, last)) == LoadedView::Use(identity)
            &&& left(what, path, later, last) == kept
        }),
{
    let what = "read identity"@;
    lemma_file_kept(what, path, left(what, path, file, first), between);
}

/// A first start comes by a secret: where there is no file, whatever its path, a new secret is
/// made, used and written. So does every start that can read its file.
pub proof fn law_a_first_start_makes_a_secret(
    what: Seq<char>,
    path: Seq<char>,
    file: Option<Seq<u8>>,
    start: Start,
)
    requires
        start.failure is None,
    ensures
        match file {
            None => {
                &&& decided(what, path, file, start) is Generate
                &&& used(what, path, file, start) == Some(start.fresh)
                &&& left(what, path, file, start) == Some(start.fresh)
            },
            Some(bytes) => {
                &&& used(what, path, file, start) == Some(bytes)
                &&& left(what, path, file, start) == Some(bytes)
            },
        },
{
}

/// A file that cannot be read is not replaced, and the start fails.
pub proof fn law_an_unreadable_file_is_left_alone(
    what: Seq<char>,
    path: Seq<char>,
    file: Option<Seq<u8>>,
    start: Start,
)
    requires
        start.failure is Some,
    ensures
        used(what, path, file, start) is None,
        left(what, path, file, start) == file,
{
}

/// How a start comes by the node identity: a missing file leads to a new one, for every path; a
/// file that holds a key pair leads to that pair; anything else is a failure that names the path
/// and tells the cause.
pub proof fn law_how_an_identity_is_come_by(path: Seq<char>, file: Read, loaded: Loaded)
    requires
        loaded@ == loaded_from(path, file@),
    ensures
        match file {
            Read::Missing => loaded is Generate,
            Read::Failed(why) => {
                &&& loaded matches Loaded::Fail(failure)
                &&& failure.error@ == "failed to read identity at "@ + path
                &&& failure.cause@ == why@
            },
            Read::Holds(bytes) => match public_key_in(bytes@) {
                Ok(public) => {
                    &&& loaded matches Loaded::Use(identity)
                    &&& identity.encoded@ == bytes@
                    &&& identity.public@ == public
                },
                Err(text) => {
                    &&& loaded matches Loaded::Fail(failure)
                    &&& failure.error@ == "failed to decode identity at "@ + path
                    &&& failure.cause@ == text
                },
            },
        },
{
    lemma_identity(path, file, loaded);
}

/// How a start comes by the certificate: a missing file leads to a new one, for every path; what a
/// file holds is used; a file that cannot be read is a failure that names the path and tells the
/// cause.
pub proof fn law_how_a_certificate_is_come_by(path: Seq<char>, file: Read, keep: Keep)
    requires
        keep@ == step_after_reading("read certificate"@, path, file@),
    ensures
        match file {
            Read::Missing => keep is Generate,
            Read::Failed(why) => {
                &&& keep matches Keep::Fail(failure)
                &&& failure.error@ == "failed to read certificate at "@ + path
                &&& failure.cause@ == why@
            },
            Read::Holds(bytes) => keep matches Keep::Decode(encoded) && encoded@ == bytes@,
        },
{
    lemma_certificate(path, file, keep);
}

} // verus!
