//! Where the frontend opens its websocket to the backend.

use vstd::prelude::*;

verus! {

/// The address of the backend: `hostname:port` of the page the frontend was
/// loaded from, or empty where the location could not be read.
pub open spec fn backend_address(location: Option<(Seq<char>, Seq<char>)>) -> Seq<char> {
    match location {
        Some((hostname, port)) => hostname + ":"@ + port,
        None => Seq::empty(),
    }
}

/// The websocket URL the frontend connects to, given the hostname and port of
/// the page's location where both could be read.
pub fn websocket_url(location: Option<(&str, &str)>) -> (url: String)
    ensures
        url@ == "ws://"@ + backend_address(
            match location {
                Some((hostname, port)) => Some((hostname@, port@)),
                None => None,
            },
        ) + "/ws"@,
        location matches Some((hostname, port)) ==> url@ == "ws://"@ + hostname@ + ":"@ + port@
            + "/ws"@,
        location is None ==> url@ == "ws://"@ + "/ws"@,
{
    let mut url = "ws://".to_owned();
    match location {
        Some((hostname, port)) => {
            url.append(hostname);
            url.append(":");
            url.append(port);
            proof {
                assert("ws://"@ + hostname@ + ":"@ + port@ =~= "ws://"@ + (hostname@ + ":"@ + port@));
            }
        },
        None => {
            assert("ws://"@ + Seq::<char>::empty() =~= "ws://"@);
        },
    }
    url.append("/ws");
    url
}

/// The backend's address holds the whole hostname, then a colon, then the
/// whole port, and nothing else; without a location it is empty.
pub proof fn lemma_backend_address_parts(hostname: Seq<char>, port: Seq<char>)
    ensures
        backend_address(Some((hostname, port))).len() == hostname.len() + 1 + port.len(),
        backend_address(Some((hostname, port))).take(hostname.len() as int) == hostname,
        backend_address(Some((hostname, port)))[hostname.len() as int] == ':',
        backend_address(Some((hostname, port))).skip(hostname.len() as int + 1) == port,
        backend_address(None) == Seq::<char>::empty(),
{
    reveal_strlit(":");
    let a = backend_address(Some((hostname, port)));
    assert(a.take(hostname.len() as int) =~= hostname);
    assert(a.skip(hostname.len() as int + 1) =~= port);
}

} // verus!
