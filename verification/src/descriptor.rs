//! The identity record a host announces about itself, and the envelope
//! that carries one such record across the wire.

use vstd::prelude::*;

use crate::address::Ipv4Address;

verus! {

/// Static identity and platform metadata describing one host, produced
/// once per session by the descriptor provider.
#[derive(Clone, Debug)]
pub struct DeviceDescriptor {
    pub display_name: String,
    pub user_name: String,
    pub host_name: String,
    pub platform: String,
    pub distro: String,
    /// How many concurrent transfer workers the host offers; at least one
    /// on any well-formed descriptor.
    pub concurrency_hint: usize,
}

/// The mathematical image of a descriptor: its strings as character
/// sequences.
pub struct DescriptorModel {
    pub display_name: Seq<char>,
    pub user_name: Seq<char>,
    pub host_name: Seq<char>,
    pub platform: Seq<char>,
    pub distro: Seq<char>,
    pub concurrency_hint: usize,
}

impl View for DeviceDescriptor {
    type V = DescriptorModel;

    open spec fn view(&self) -> DescriptorModel {
        DescriptorModel {
            display_name: self.display_name@,
            user_name: self.user_name@,
            host_name: self.host_name@,
            platform: self.platform@,
            distro: self.distro@,
            concurrency_hint: self.concurrency_hint,
        }
    }
}

impl DescriptorModel {
    /// A well-formed descriptor offers at least one worker.
    pub open spec fn wf(self) -> bool {
        self.concurrency_hint >= 1
    }
}

/// One discovery message unit: the protocol tag, the sender's descriptor
/// and the sender's address.
#[derive(Clone, Debug)]
pub struct Envelope {
    pub protocol_tag: String,
    pub descriptor: DeviceDescriptor,
    pub source_address: Ipv4Address,
}

/// The mathematical image of an envelope.
pub struct EnvelopeModel {
    pub protocol_tag: Seq<char>,
    pub descriptor: DescriptorModel,
    pub source_address: Ipv4Address,
}

impl View for Envelope {
    type V = EnvelopeModel;

    open spec fn view(&self) -> EnvelopeModel {
        EnvelopeModel {
            protocol_tag: self.protocol_tag@,
            descriptor: self.descriptor@,
            source_address: self.source_address,
        }
    }
}

impl Envelope {
    /// The concurrency hint this envelope announces. It lives inside the
    /// descriptor and is serialized as the record's own trailing field.
    pub fn concurrency_hint(&self) -> (h: usize)
        ensures
            h == self@.descriptor.concurrency_hint,
    {
        self.descriptor.concurrency_hint
    }
}

/// The fixed literal marking traffic of this discovery protocol.
pub open spec fn spec_protocol_tag() -> Seq<char> {
    "WiTransfer"@
}

/// The protocol tag as a borrowed string.
pub fn protocol_tag() -> (s: &'static str)
    ensures
        s@ == spec_protocol_tag(),
{
    "WiTransfer"
}

/// The label under which a peer with descriptor `d` is shown: its display
/// name and its host name, joined by a dash.
pub open spec fn label_of(d: DescriptorModel) -> Seq<char> {
    d.display_name + " - "@ + d.host_name
}

/// Derives the display label for a peer from its announced descriptor.
pub fn peer_label(d: &DeviceDescriptor) -> (s: String)
    ensures
        s@ == label_of(d@),
{
    let mut s = String::new();
    s.append(d.display_name.as_str());
    s.append(" - ");
    s.append(d.host_name.as_str());
    s
}

/// Builds the envelope this host broadcasts about itself: the protocol
/// tag, the local descriptor and the local bound address.
pub fn local_announcement(descriptor: DeviceDescriptor, local: Ipv4Address) -> (e: Envelope)
    ensures
        e@.protocol_tag == spec_protocol_tag(),
        e@.descriptor == descriptor@,
        e@.source_address == local,
{
    Envelope { protocol_tag: protocol_tag().to_owned(), descriptor, source_address: local }
}

} // verus!
