use vstd::prelude::*;
use crate::error::ApiError;

verus! {

/// What a peer lookup is asked about. The lookup does not yet narrow its
/// answer by it; it is carried for callers that will.
#[derive(Clone, Debug, PartialEq, Eq)]
pub enum PeerIdOrAddr {
    /// A peer identity, as its encoded bytes.
    PeerId(Vec<u8>),
    /// A network address, in its textual form.
    Multiaddr(String),
}

/// The identity and addresses of the local peer.
#[derive(Clone, Debug, PartialEq, Eq)]
pub struct Lookup {
    pub peer_id: Vec<u8>,
    pub listen_addrs: Vec<String>,
    pub local_addrs: Vec<String>,
}

/// The record assembled from the transport's three answers, asked in this
/// order: the listening addresses, the local identity, the externally
/// observed addresses. The first failure is the result.
pub open spec fn lookup_spec(
    listen: Result<Seq<String>, ApiError>,
    peer_id: Result<Seq<u8>, ApiError>,
    local: Result<Seq<String>, ApiError>,
) -> Result<(Seq<u8>, Seq<String>, Seq<String>), ApiError> {
    match listen {
        Err(e) => Err(e),
        Ok(l) => match peer_id {
            Err(e) => Err(e),
            Ok(p) => match local {
                Err(e) => Err(e),
                Ok(a) => Ok((p, l, a)),
            },
        },
    }
}

/// The contents of a vector result.
pub open spec fn vec_result<T>(r: Result<Vec<T>, ApiError>) -> Result<Seq<T>, ApiError> {
    match r {
        Ok(v) => Ok(v@),
        Err(e) => Err(e),
    }
}

/// Assembles a peer record from the transport's answers: the listening
/// addresses (with the identity they were reported for, which is not used),
/// the local identity and the externally observed addresses.
pub fn lookup(
    addr: &PeerIdOrAddr,
    listen: Result<(Vec<u8>, Vec<String>), ApiError>,
    peer_id: Result<Vec<u8>, ApiError>,
    local: Result<Vec<String>, ApiError>,
) -> (r: Result<Lookup, ApiError>)
    ensures
        match (r, lookup_spec(
            match listen {
                Ok((_, l)) => Ok(l@),
                Err(e) => Err(e),
            },
            vec_result(peer_id),
            vec_result(local),
        )) {
            (Ok(k), Ok((p, l, a))) => k.peer_id@ == p && k.listen_addrs@ == l && k.local_addrs@ == a,
            (Err(e), Err(f)) => e == f,
            _ => false,
        },
{
    let listen_addrs = match listen {
        Ok((_, l)) => l,
        Err(e) => {
            return Err(e);
        },
    };
    let peer_id = match peer_id {
        Ok(p) => p,
        Err(e) => {
            return Err(e);
        },
    };
    let local_addrs = match local {
        Ok(a) => a,
        Err(e) => {
            return Err(e);
        },
    };
    Ok(Lookup { peer_id, listen_addrs, local_addrs })
}

/// When the transport cannot be reached, every answer that fails says so;
/// then as soon as one answer fails, the lookup surfaces that the transport
/// is unavailable and yields no record.
pub proof fn lemma_unreachable_transport_yields_no_record(
    listen: Result<Seq<String>, ApiError>,
    peer_id: Result<Seq<u8>, ApiError>,
    local: Result<Seq<String>, ApiError>,
)
    requires
        listen is Err || peer_id is Err || local is Err,
        listen is Err ==> listen == Err::<Seq<String>, ApiError>(ApiError::TransportUnavailable),
        peer_id is Err ==> peer_id == Err::<Seq<u8>, ApiError>(ApiError::TransportUnavailable),
        local is Err ==> local == Err::<Seq<String>, ApiError>(ApiError::TransportUnavailable),
    ensures
        lookup_spec(listen, peer_id, local)
            == Err::<(Seq<u8>, Seq<String>, Seq<String>), ApiError>(ApiError::TransportUnavailable),
{
}

} // verus!
