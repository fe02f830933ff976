//! What the configuration must satisfy before the network can be set up.
//!
//! Startup is all or nothing.  Every protocol name must be one that the
//! network accepts, and every bootstrap address must parse and must name the
//! peer that is reached at it.  The first entry that fails decides
//! the error.
//!
//! Names and addresses are parsed by `libp2p`.  What it hands back stays in
//! its own types, which this library carries through without looking inside;
//! the wrappers at the end of the module say what is believed of each call.
use libp2p::multiaddr::Protocol;
use libp2p::Multiaddr;
use libp2p::StreamProtocol;
use std::str::FromStr;
use vstd::prelude::*;

verus! {

/// One component of a network address, as far as startup reads it.
#[derive(Debug, Clone, PartialEq, Eq)]
pub enum Component {
    /// The component names a peer; the bytes are the peer's identity.
    Peer(Vec<u8>),
    /// Any other component.
    Other,
}

/// A component as a mathematical value.
pub enum ComponentView {
    Peer(Seq<u8>),
    Other,
}

impl View for Component {
    type V = ComponentView;

    open spec fn view(&self) -> ComponentView {
        match *self {
            Component::Peer(peer) => ComponentView::Peer(peer@),
            Component::Other => ComponentView::Other,
        }
    }
}

impl DeepView for Component {
    type V = ComponentView;

    open spec fn deep_view(&self) -> ComponentView {
        self@
    }
}

/// The identity of the first peer that a run of components names.
pub open spec fn first_peer(components: Seq<ComponentView>) -> Option<Seq<u8>>
    decreases components.len(),
{
    if components.len() == 0 {
        None
    } else {
        match components[0] {
            ComponentView::Peer(peer) => Some(peer),
            ComponentView::Other => first_peer(components.skip(1)),
        }
    }
}

/// The first peer of a run is the first component that names a peer:
/// no component before it names one.
pub proof fn lemma_first_peer(components: Seq<ComponentView>)
    ensures
        match first_peer(components) {
            Some(peer) => exists|i: int|
                0 <= i < components.len() && components[i] == ComponentView::Peer(peer)
                    && forall|j: int| 0 <= j < i ==> components[j] == ComponentView::Other,
            None => forall|j: int| 0 <= j < components.len() ==> components[j]
                == ComponentView::Other,
        },
    decreases components.len(),
{
    if components.len() > 0 {
        match components[0] {
            ComponentView::Peer(peer) => {
                assert(components[0] == ComponentView::Peer(peer) && forall|j: int|
                    0 <= j < 0 ==> components[j] == ComponentView::Other);
            },
            ComponentView::Other => {
                let rest = components.skip(1);
                lemma_first_peer(rest);
                match first_peer(rest) {
                    Some(peer) => {
                        let i = choose|i: int|
                            0 <= i < rest.len() && rest[i] == ComponentView::Peer(peer)
                                && forall|j: int| 0 <= j < i ==> rest[j] == ComponentView::Other;
                        assert forall|j: int| 0 <= j < i + 1 implies components[j]
                            == ComponentView::Other by {
                            if j > 0 {
                                assert(rest[j - 1] == components[j]);
                            }
                        }
                        assert(components[i + 1] == rest[i]);
                    },
                    None => {
                        assert forall|j: int| 0 <= j < components.len() implies components[j]
                            == ComponentView::Other by {
                            if j > 0 {
                                assert(rest[j - 1] == components[j]);
                            }
                        }
                    },
                }
            },
        }
    }
}

/// Why a configuration cannot be used.
#[derive(Debug, Clone, Copy, PartialEq, Eq, Structural)]
pub enum ConfigError {
    /// The protocol name at `index` does not begin with a slash.
    UnsupportedProtocol { index: usize },
    /// The bootstrap address at `index` is no network address.
    UnparseableAddress { index: usize },
    /// The bootstrap address at `index` names no peer.
    NoPeer { index: usize },
}

/// A peer to start from: its identity and the address it is reached at.
#[derive(Debug)]
pub struct BootstrapPeer {
    pub peer: Vec<u8>,
    pub address: Multiaddr,
}

/// Whether a protocol name is one that the network accepts: it begins with
/// a slash.
pub open spec fn protocol_accepted(name: Seq<char>) -> bool {
    name.len() > 0 && name[0] == '/'
}

/// The identity of the peer that the bootstrap address `text` names, or
/// nothing where the text is no address or the address names no peer.
pub open spec fn address_peer(text: Seq<char>) -> Option<Seq<u8>> {
    match parsed_components(text) {
        Some(components) => first_peer(components),
        None => None,
    }
}

/// The identity of the first peer that a run of components names, or
/// nothing where none of them names a peer.
pub fn first_peer_of(components: &Vec<Component>) -> (peer: Option<Vec<u8>>)
    ensures
        match peer {
            Some(peer) => first_peer(components.deep_view()) == Some(peer@),
            None => first_peer(components.deep_view()) is None,
        },
{
    let ghost all = components.deep_view();
    let mut i: usize = 0;
    assert(all.skip(0) =~= all);
    while i < components.len()
        invariant
            i <= components.len(),
            all == components.deep_view(),
            first_peer(all) == first_peer(all.skip(i as int)),
        decreases components.len() - i,
    {
        assert(all.skip(i as int)[0] == components[i as int]@);
        assert(all.skip(i as int).skip(1) =~= all.skip(i + 1));
        match &components[i] {
            Component::Peer(peer) => {
                let found = vstd::slice::slice_to_vec(peer.as_slice());
                assert(all.skip(i as int)[0] == ComponentView::Peer(found@));
                return Some(found);
            },
            Component::Other => {},
        }
        i += 1;
    }
    None
}

/// The identity of the peer that an address names: that of its first
/// component that names one.
pub fn get_addr_peer(addr: &Multiaddr) -> (peer: Option<Vec<u8>>)
    ensures
        match peer {
            Some(peer) => first_peer(address_components(*addr)) == Some(peer@),
            None => first_peer(address_components(*addr)) is None,
        },
{
    let components = components_of(addr);
    first_peer_of(&components)
}

/// The protocols that the network is to speak, in the order of the
/// configuration.
///
/// The call succeeds exactly when every name is accepted; the error names
/// the first that is not.
pub fn stream_protocols(names: &Vec<String>) -> (r: Result<Vec<StreamProtocol>, ConfigError>)
    ensures
        match r {
            Ok(protocols) => {
                &&& protocols.len() == names.len()
                &&& forall|i: int|
                    0 <= i < names.len() ==> protocol_accepted(#[trigger] names[i]@)
                &&& forall|i: int|
                    0 <= i < names.len() ==> protocol_name(#[trigger] protocols[i]) == names[i]@
            },
            Err(ConfigError::UnsupportedProtocol { index }) => {
                &&& index < names.len()
                &&& !protocol_accepted(names[index as int]@)
                &&& forall|j: int| 0 <= j < index ==> protocol_accepted(#[trigger] names[j]@)
            },
            Err(_) => false,
        },
{
    let mut protocols: Vec<StreamProtocol> = Vec::new();
    let mut i: usize = 0;
    while i < names.len()
        invariant
            i <= names.len(),
            protocols.len() == i,
            forall|j: int| 0 <= j < i ==> protocol_accepted(#[trigger] names[j]@),
            forall|j: int| 0 <= j < i ==> protocol_name(#[trigger] protocols[j]) == names[j]@,
        decreases names.len() - i,
    {
        let name = names[i].clone();
        assert(name@ == names[i as int]@);
        match stream_protocol(name) {
            Some(protocol) => {
                protocols.push(protocol);
            },
            None => {
                return Err(ConfigError::UnsupportedProtocol { index: i });
            },
        }
        i += 1;
    }
    Ok(protocols)
}

/// The peers to start from, in the order of the configuration.
///
/// The call succeeds exactly when every address parses and names a peer;
/// the error tells the first address that does not, and what is wrong with
/// it.
pub fn bootstrap_peers(addresses: &Vec<String>) -> (r: Result<Vec<BootstrapPeer>, ConfigError>)
    ensures
        match r {
            Ok(peers) => {
                &&& peers.len() == addresses.len()
                &&& forall|i: int|
                    0 <= i < addresses.len() ==> address_peer(#[trigger] addresses[i]@) is Some
                &&& forall|i: int|
                    0 <= i < addresses.len() ==> {
                        &&& address_peer(addresses[i]@) == Some((#[trigger] peers[i]).peer@)
                        &&& parsed_components(addresses[i]@) == Some(
                            address_components(peers[i].address),
                        )
                    }
            },
            Err(ConfigError::UnparseableAddress { index }) => {
                &&& index < addresses.len()
                &&& parsed_components(addresses[index as int]@) is None
                &&& forall|j: int| 0 <= j < index ==> address_peer(#[trigger] addresses[j]@) is Some
            },
            Err(ConfigError::NoPeer { index }) => {
                &&& index < addresses.len()
                &&& parsed_components(addresses[index as int]@) is Some
                &&& address_peer(addresses[index as int]@) is None
                &&& forall|j: int| 0 <= j < index ==> address_peer(#[trigger] addresses[j]@) is Some
            },
            Err(_) => false,
        },
{
    let mut peers: Vec<BootstrapPeer> = Vec::new();
    let mut i: usize = 0;
    while i < addresses.len()
        invariant
            i <= addresses.len(),
            peers.len() == i,
            forall|j: int| 0 <= j < i ==> address_peer(#[trigger] addresses[j]@) is Some,
            forall|j: int|
                0 <= j < i ==> {
                    &&& address_peer(addresses[j]@) == Some((#[trigger] peers[j]).peer@)
                    &&& parsed_components(addresses[j]@) == Some(
                        address_components(peers[j].address),
                    )
                },
        decreases addresses.len() - i,
    {
        let address = match parse_address(addresses[i].as_str()) {
            Some(address) => address,
            None => {
                return Err(ConfigError::UnparseableAddress { index: i });
            },
        };
        let peer = match get_addr_peer(&address) {
            Some(peer) => peer,
            None => {
                return Err(ConfigError::NoPeer { index: i });
            },
        };
        peers.push(BootstrapPeer { peer, address });
        i += 1;
    }
    Ok(peers)
}

/// `libp2p::Multiaddr`, a network address.  The library reads it only
/// through [`address_components`].
#[verifier::external_type_specification]
#[verifier::external_body]
pub struct ExMultiaddr(libp2p::Multiaddr);

/// `libp2p::StreamProtocol`, a protocol that the network knows by name.
/// The library reads it only through [`protocol_name`].
#[verifier::external_type_specification]
#[verifier::external_body]
pub struct ExStreamProtocol(libp2p::StreamProtocol);

/// The components that an address is made of, in order: what
/// `Multiaddr::iter` yields.
pub uninterp spec fn address_components(address: Multiaddr) -> Seq<ComponentView>;

/// The components of the address that a text is parsed to by `Multiaddr`'s
/// `FromStr`, or nothing where the text is no address.
pub uninterp spec fn parsed_components(text: Seq<char>) -> Option<Seq<ComponentView>>;

/// The name of a protocol: the text that `StreamProtocol::as_ref` yields.
pub uninterp spec fn protocol_name(protocol: StreamProtocol) -> Seq<char>;

/// `Multiaddr::iter`, each component turned into the library's own: a
/// `Protocol::P2p` into the bytes of its peer's identity
/// (`PeerId::to_bytes`), every other into `Other`.
#[verifier::external_body]
fn components_of(address: &Multiaddr) -> (components: Vec<Component>)
    ensures
        components.deep_view() == address_components(*address),
{
    address
        .iter()
        .map(|component| match component {
            Protocol::P2p(peer) => Component::Peer(peer.to_bytes()),
            _ => Component::Other,
        })
        .collect()
}

/// `Multiaddr::from_str`: the address that a text stands for, or nothing
/// where the text is no address.  The same text always gives the same
/// address.
#[verifier::external_body]
fn parse_address(text: &str) -> (address: Option<Multiaddr>)
    ensures
        match address {
            Some(address) => parsed_components(text@) == Some(address_components(address)),
            None => parsed_components(text@) is None,
        },
{
    match Multiaddr::from_str(text) {
        Ok(address) => Some(address),
        Err(_) => None,
    }
}

/// `StreamProtocol::try_from_owned`: the protocol of that name.  The crate
/// accepts a name exactly when it begins with a slash.
#[verifier::external_body]
fn stream_protocol(name: String) -> (protocol: Option<StreamProtocol>)
    ensures
        protocol is Some <==> protocol_accepted(name@),
        protocol matches Some(protocol) ==> protocol_name(protocol) == name@,
{
    match StreamProtocol::try_from_owned(name) {
        Ok(protocol) => Some(protocol),
        Err(_) => None,
    }
}

} // verus!
