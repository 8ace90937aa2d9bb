//! Peers of the overlay: identities, addresses, and peers with the addresses
//! they can be reached at.

use vstd::prelude::*;

verus! {

/// Stable identity of a peer: the 256-bit fingerprint of its public key.
#[derive(Clone, Copy, PartialEq, Eq, Structural, Debug, Hash)]
pub struct PeerId {
    pub hi: u128,
    pub lo: u128,
}

/// A network address in its textual multi-protocol form.
#[derive(Debug)]
pub struct Multiaddr {
    pub text: String,
}

impl DeepView for Multiaddr {
    type V = Seq<char>;

    open spec fn deep_view(&self) -> Seq<char> {
        self.text@
    }
}

impl View for Multiaddr {
    type V = Seq<char>;

    open spec fn view(&self) -> Seq<char> {
        self.text@
    }
}

impl Clone for Multiaddr {
    fn clone(&self) -> (r: Self)
        ensures
            r@ == self@,
    {
        Multiaddr { text: self.text.clone() }
    }
}

impl Multiaddr {
    /// Whether the two addresses are the same.
    pub fn same(&self, other: &Multiaddr) -> (b: bool)
        ensures
            b == (self@ == other@),
    {
        self.text == other.text
    }
}

/// Whether `list` holds `addr`.
pub fn contains_multiaddr(list: &Vec<Multiaddr>, addr: &Multiaddr) -> (b: bool)
    ensures
        b == list.deep_view().contains(addr@),
{
    let mut i: usize = 0;
    while i < list.len()
        invariant
            i <= list.len(),
            forall|k: int| 0 <= k < i ==> (#[trigger] list[k])@ != addr@,
        decreases list.len() - i,
    {
        if list[i].same(addr) {
            assert(list.deep_view()[i as int] == addr@);
            return true;
        }
        i += 1;
    }
    assert forall|k: int| 0 <= k < list.deep_view().len() implies list.deep_view()[k] != addr@ by {
        assert(list.deep_view()[k] == list[k]@);
    }
    false
}

/// Copies a list of addresses.
pub fn clone_multiaddrs(list: &Vec<Multiaddr>) -> (r: Vec<Multiaddr>)
    ensures
        r.deep_view() == list.deep_view(),
{
    let mut out: Vec<Multiaddr> = Vec::new();
    let mut i: usize = 0;
    while i < list.len()
        invariant
            i <= list.len(),
            out.len() == i,
            forall|k: int| 0 <= k < i ==> out[k]@ == list[k]@,
        decreases list.len() - i,
    {
        out.push(list[i].clone());
        i += 1;
    }
    assert(out.deep_view() =~= list.deep_view());
    out
}

/// Mathematical value of an [`AddressablePeer`].
pub struct PeerModel {
    pub peer_id: PeerId,
    pub addresses: Seq<Seq<char>>,
}

/// A peer's identity together with the addresses at which it can be reached.
#[derive(Debug)]
pub struct AddressablePeer {
    pub peer_id: PeerId,
    pub addresses: Vec<Multiaddr>,
}

impl DeepView for AddressablePeer {
    type V = PeerModel;

    open spec fn deep_view(&self) -> PeerModel {
        PeerModel { peer_id: self.peer_id, addresses: self.addresses.deep_view() }
    }
}

impl View for AddressablePeer {
    type V = PeerModel;

    open spec fn view(&self) -> PeerModel {
        self.deep_view()
    }
}

impl Clone for AddressablePeer {
    fn clone(&self) -> (r: Self)
        ensures
            r@ == self@,
    {
        AddressablePeer { peer_id: self.peer_id, addresses: clone_multiaddrs(&self.addresses) }
    }
}

/// Copies a list of peers.
pub fn clone_peers(list: &Vec<AddressablePeer>) -> (r: Vec<AddressablePeer>)
    ensures
        r.deep_view() == list.deep_view(),
{
    let mut out: Vec<AddressablePeer> = Vec::new();
    let mut i: usize = 0;
    while i < list.len()
        invariant
            i <= list.len(),
            out.len() == i,
            forall|k: int| 0 <= k < i ==> out[k]@ == list[k]@,
        decreases list.len() - i,
    {
        out.push(list[i].clone());
        i += 1;
    }
    assert(out.deep_view() =~= list.deep_view());
    out
}

} // verus!
