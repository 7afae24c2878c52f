use autonomi_webrtc::identity::{
    create_keypair, load_or_create_certificate, load_or_create_keypair, on_decoded, on_generated,
    Failure, Identity, Keep, Loaded, Read,
};
use libp2p::identity::Keypair;

/// The message of a failure and its cause.
fn parts(failure: Failure) -> (String, String) {
    (failure.error.message().to_string(), failure.cause)
}

fn failure(loaded: Loaded) -> (String, String) {
    match loaded {
        Loaded::Fail(failure) => parts(failure),
        Loaded::Use(_) => panic!("an identity"),
        Loaded::Generate => panic!("a new identity"),
    }
}

fn pair(message: &str, cause: &str) -> (String, String) {
    (message.to_string(), cause.to_string())
}

#[test]
fn an_identity_is_made_on_first_run_only() {
    assert!(load_or_create_keypair("id", Read::Missing) == Loaded::Generate);
    assert_eq!(
        failure(load_or_create_keypair("a/id", Read::Failed("permission denied".to_string()))),
        pair("failed to read identity at a/id", "permission denied")
    );
}

#[test]
fn an_identity_survives_restarts() {
    let created = match create_keypair() {
        Ok(identity) => identity,
        Err(failure) => panic!("{failure:?}"),
    };
    let keypair = Keypair::from_protobuf_encoding(&created.encoded).unwrap();
    assert_eq!(created.public, keypair.public().encode_protobuf());
    for _ in 0..3 {
        match load_or_create_keypair("id", Read::Holds(created.encoded.clone())) {
            Loaded::Use(identity) => assert!(identity == created),
            _ => panic!("the identity was lost"),
        }
        assert!(matches!(
            load_or_create_keypair("id", Read::Failed("busy".to_string())),
            Loaded::Fail(_)
        ));
    }
    // Another start would have made another one.
    assert!(create_keypair().ok().unwrap().public != created.public);
}

#[test]
fn an_identity_made_elsewhere_is_loaded() {
    let keypair = Keypair::generate_ed25519();
    let encoded = keypair.to_protobuf_encoding().unwrap();
    match load_or_create_keypair("id", Read::Holds(encoded.clone())) {
        Loaded::Use(identity) => {
            assert!(identity.encoded == encoded);
            assert_eq!(identity.public, keypair.public().encode_protobuf());
        }
        _ => panic!("the identity was lost"),
    }
}

#[test]
fn a_file_that_holds_no_identity_is_an_error() {
    for bytes in [b"".to_vec(), b"not a key".to_vec(), vec![8, 1, 18, 2, 1, 2]] {
        let text = Keypair::from_protobuf_encoding(&bytes).unwrap_err().to_string();
        assert_eq!(
            failure(load_or_create_keypair("x", Read::Holds(bytes))),
            pair("failed to decode identity at x", &text)
        );
    }
    assert_eq!(
        failure(on_decoded("p", vec![1], Err("garbled".to_string()))),
        pair("failed to decode identity at p", "garbled")
    );
    assert!(
        on_decoded("p", vec![1], Ok(vec![2]))
            == Loaded::Use(Identity { encoded: vec![1], public: vec![2] })
    );
}

#[test]
fn a_new_identity_is_used_as_it_was_encoded() {
    let identity = Identity { encoded: vec![1, 2], public: vec![3] };
    match on_generated(Ok(identity)) {
        Ok(made) => assert!(made == Identity { encoded: vec![1, 2], public: vec![3] }),
        Err(failure) => panic!("{failure:?}"),
    }
    match on_generated(Err("unsupported".to_string())) {
        Ok(_) => panic!("an identity"),
        Err(failure) => assert_eq!(
            parts(failure),
            pair("failed to encode the generated identity", "unsupported")
        ),
    }
}

#[test]
fn a_certificate_is_made_on_first_run_only() {
    assert!(load_or_create_certificate("c", Read::Missing) == Keep::Generate);
    let kept = load_or_create_certificate("c", Read::Holds(vec![1, 2]));
    assert!(kept == Keep::Decode(vec![1, 2]));
    // An empty file was read, so it is used, for better or worse.
    assert!(load_or_create_certificate("c", Read::Holds(vec![])) == Keep::Decode(vec![]));
    match load_or_create_certificate("d/c", Read::Failed("is a directory".to_string())) {
        Keep::Fail(failure) => assert_eq!(
            parts(failure),
            pair("failed to read certificate at d/c", "is a directory")
        ),
        _ => panic!("an unreadable certificate was replaced"),
    }
}

/// What a start uses, and what the file holds after it.
fn started(file: Option<Vec<u8>>, fresh: &[u8]) -> (Vec<u8>, Vec<u8>) {
    let read = match file.clone() {
        Some(bytes) => Read::Holds(bytes),
        None => Read::Missing,
    };
    match load_or_create_certificate("c", read) {
        Keep::Decode(encoded) => (encoded, file.unwrap()),
        Keep::Generate => (fresh.to_vec(), fresh.to_vec()),
        Keep::Fail(failure) => panic!("{failure:?}"),
    }
}

#[test]
fn restarts_keep_the_first_secret() {
    let (used, mut file) = started(None, b"first");
    assert_eq!(used, b"first");
    for fresh in [b"second", b"third!"] {
        let (used, after) = started(Some(file), fresh);
        assert_eq!(used, b"first");
        file = after;
    }
}
