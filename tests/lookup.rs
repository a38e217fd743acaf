use iroh_api::error::ApiError;
use iroh_api::peer::{lookup, Lookup, PeerIdOrAddr};

fn addrs(v: &[&str]) -> Vec<String> {
    v.iter().map(|s| s.to_string()).collect()
}

#[test]
fn lookup_assembles_record() {
    let q = PeerIdOrAddr::Multiaddr("/ip4/1.2.3.4/tcp/1".to_string());
    let r = lookup(
        &q,
        Ok((vec![9], addrs(&["/ip4/0.0.0.0/tcp/4444"]))),
        Ok(vec![1, 2, 3]),
        Ok(addrs(&["/ip4/5.6.7.8/tcp/4444"])),
    );
    assert_eq!(
        r,
        Ok(Lookup {
            peer_id: vec![1, 2, 3],
            listen_addrs: addrs(&["/ip4/0.0.0.0/tcp/4444"]),
            local_addrs: addrs(&["/ip4/5.6.7.8/tcp/4444"]),
        })
    );
}

#[test]
fn lookup_on_unreachable_transport() {
    let q = PeerIdOrAddr::PeerId(vec![7]);
    let r = lookup(
        &q,
        Err(ApiError::TransportUnavailable),
        Err(ApiError::TransportUnavailable),
        Err(ApiError::TransportUnavailable),
    );
    assert_eq!(r, Err(ApiError::TransportUnavailable));
}

#[test]
fn lookup_surfaces_first_failure() {
    let q = PeerIdOrAddr::PeerId(vec![7]);
    let r = lookup(&q, Ok((vec![], addrs(&[]))), Err(ApiError::LoaderFailure), Err(ApiError::IoFailure));
    assert_eq!(r, Err(ApiError::LoaderFailure));
    let r = lookup(&q, Ok((vec![], addrs(&[]))), Ok(vec![1]), Err(ApiError::TransportUnavailable));
    assert_eq!(r, Err(ApiError::TransportUnavailable));
}

#[test]
fn error_messages_are_distinct() {
    assert_eq!(ApiError::InvalidEntryKind.message(), "can only add files or directories");
    assert_ne!(ApiError::NotFound.message(), ApiError::UnsafePath.message());
}
