//! Outbound network messages and the decision rules of the comms layer.

use vstd::prelude::*;

verus! {

/// A framed message handed to a transport, with its delivery class.
pub struct NetworkMessage {
    pub data: Vec<u8>,
    pub unreliable: bool,
}

impl NetworkMessage {
    /// A message the transport may drop.
    pub fn unreliable(data: Vec<u8>) -> (r: NetworkMessage)
        ensures
            r.data@ == data@,
            r.unreliable,
    {
        NetworkMessage { data, unreliable: true }
    }

    /// A message the transport must deliver.
    pub fn reliable(data: Vec<u8>) -> (r: NetworkMessage)
        ensures
            r.data@ == data@,
            !r.unreliable,
    {
        NetworkMessage { data, unreliable: false }
    }
}

/// What a realm's fixed-adapter string asks for.
pub enum AdapterDecision {
    /// Connect a websocket-room transport to the given address.
    WsRoom(Vec<u8>),
    /// Run without comms.
    Offline,
    /// An adapter this client does not understand; comms stay down.
    Unrecognised,
}

/// The protocol tag selecting a websocket-room transport.
pub open spec fn ws_room_tag() -> Seq<u8> {
    seq![119u8, 115u8, 45u8, 114u8, 111u8, 111u8, 109u8]
}

/// The protocol tag selecting no transport.
pub open spec fn offline_tag() -> Seq<u8> {
    seq![111u8, 102u8, 102u8, 108u8, 105u8, 110u8, 101u8]
}

/// Whether `i` is the position of the first colon (or the length when
/// there is none).
pub open spec fn is_colon_cut(s: Seq<u8>, i: int) -> bool {
    &&& 0 <= i <= s.len()
    &&& forall|j: int| 0 <= j < i ==> s[j] != 58
    &&& i == s.len() || s[i] == 58
}

/// The position of the first colon, or the length if there is none.
pub open spec fn colon_split(s: Seq<u8>) -> int {
    choose|i: int| is_colon_cut(s, i)
}

/// Decide what to do with a realm's fixed-adapter string, of the shape
/// `protocol:address`: a `ws-room` protocol connects a websocket room to
/// the address, an `offline` protocol runs without comms, and anything
/// else, or a string with no colon, is not understood.
pub fn parse_fixed_adapter(s: &Vec<u8>) -> (r: AdapterDecision)
    ensures
        ({
            let cut = colon_split(s@);
            let protocol = s@.take(cut);
            match r {
                AdapterDecision::WsRoom(address) => cut < s@.len() && protocol == ws_room_tag()
                    && address@ == s@.skip(cut + 1),
                AdapterDecision::Offline => cut < s@.len() && protocol == offline_tag(),
                AdapterDecision::Unrecognised => cut == s@.len()
                    || (protocol != ws_room_tag() && protocol != offline_tag()),
            }
        }),
{
    let n = s.len();
    let mut cut: usize = 0;
    while cut < n && s[cut] != 58
        invariant
            n == s@.len(),
            cut <= n,
            forall|j: int| 0 <= j < cut ==> s@[j] != 58,
        decreases n - cut,
    {
        cut = cut + 1;
    }
    proof {
        assert(is_colon_cut(s@, cut as int));
        assert(exists|i: int| is_colon_cut(s@, i));
        let c = colon_split(s@);
        assert(is_colon_cut(s@, c));
        assert(c == cut as int) by {
            if c < cut as int {
                assert(s@[c] != 58);
            }
            if (cut as int) < c {
                assert(s@[cut as int] != 58);
            }
        }
    }
    if cut == n {
        return AdapterDecision::Unrecognised;
    }
    let mut tag: Vec<u8> = Vec::new();
    let mut i: usize = 0;
    while i < cut
        invariant
            n == s@.len(),
            cut < n,
            i <= cut,
            tag@ == s@.take(cut as int).take(i as int),
        decreases cut - i,
    {
        tag.push(s[i]);
        proof {
            assert(tag@ =~= s@.take(cut as int).take(i as int + 1));
        }
        i += 1;
    }
    proof {
        assert(s@.take(cut as int).take(cut as int) =~= s@.take(cut as int));
    }
    if bytes_match_ws_room(&tag) {
        let mut address: Vec<u8> = Vec::new();
        let mut i: usize = cut + 1;
        while i < n
            invariant
                n == s@.len(),
                cut < n,
                cut + 1 <= i <= n,
                address@ == s@.skip(cut + 1).take(i - cut - 1),
            decreases n - i,
        {
            address.push(s[i]);
            proof {
                assert(address@ =~= s@.skip(cut as int + 1).take(i - cut));
            }
            i += 1;
        }
        proof {
            assert(s@.skip(cut + 1).take(n - cut - 1) =~= s@.skip(cut + 1));
        }
        AdapterDecision::WsRoom(address)
    } else if bytes_match_offline(&tag) {
        AdapterDecision::Offline
    } else {
        AdapterDecision::Unrecognised
    }
}

/// Whether the bytes spell the websocket-room protocol tag.
fn bytes_match_ws_room(tag: &Vec<u8>) -> (r: bool)
    ensures
        r == (tag@ == ws_room_tag()),
{
    let r = tag.len() == 7 && tag[0] == 119 && tag[1] == 115 && tag[2] == 45 && tag[3] == 114
        && tag[4] == 111 && tag[5] == 111 && tag[6] == 109;
    proof {
        if r {
            assert(tag@ =~= ws_room_tag());
        }
        if tag@ == ws_room_tag() {
            assert(tag@.len() == 7);
        }
    }
    r
}

/// Whether the bytes spell the offline protocol tag.
fn bytes_match_offline(tag: &Vec<u8>) -> (r: bool)
    ensures
        r == (tag@ == offline_tag()),
{
    let r = tag.len() == 7 && tag[0] == 111 && tag[1] == 102 && tag[2] == 102 && tag[3] == 108
        && tag[4] == 105 && tag[5] == 110 && tag[6] == 101;
    proof {
        if r {
            assert(tag@ =~= offline_tag());
        }
        if tag@ == offline_tag() {
            assert(tag@.len() == 7);
        }
    }
    r
}

} // verus!
