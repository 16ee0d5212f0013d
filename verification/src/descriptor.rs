//! The descriptor model: the validated, in-memory representation of a
//! playable source. A descriptor is either session-descriptor text held
//! directly, a place to read such text from, or a fully specified custom
//! stream.

use vstd::prelude::*;

verus! {

/// An IPv4 socket address held as plain values: four octets and a port.
#[derive(Clone, Copy, PartialEq, Eq, Structural, Debug)]
pub struct Ipv4Endpoint {
    pub a: u8,
    pub b: u8,
    pub c: u8,
    pub d: u8,
    pub port: u16,
}

/// Parameters of a stream built without descriptor text.
/// `packet_time_us` holds the packet time in whole microseconds.
#[derive(Clone, Copy, PartialEq, Eq, Structural, Debug)]
pub struct CustomStreamSettings {
    pub multicast_address: Ipv4Endpoint,
    pub bit_depth: u16,
    pub channels: u16,
    pub sample_rate: u32,
    pub packet_time_us: u32,
}

impl CustomStreamSettings {
    /// The invariant of a custom stream: channel count, sample rate and
    /// packet time are strictly positive.
    pub open spec fn wf(self) -> bool {
        &&& self.channels > 0
        &&& self.sample_rate > 0
        &&& self.packet_time_us > 0
    }
}

/// A playable source. Exactly one variant is populated per value.
#[derive(Clone, PartialEq, Debug)]
pub enum Descriptor {
    /// Literal session-descriptor text.
    RawSdp(String),
    /// Path of a local file holding descriptor text.
    LocalSdpFile(String),
    /// Location descriptor text is fetched from.
    SdpUrl(String),
    /// A fully specified stream, no descriptor text involved.
    CustomStream(CustomStreamSettings),
}

/// The mathematical value of a `Descriptor`: text as character sequences,
/// stream settings as they are.
pub enum DescriptorView {
    RawSdp(Seq<char>),
    LocalSdpFile(Seq<char>),
    SdpUrl(Seq<char>),
    CustomStream(CustomStreamSettings),
}

impl View for Descriptor {
    type V = DescriptorView;

    open spec fn view(&self) -> DescriptorView {
        match self {
            Descriptor::RawSdp(s) => DescriptorView::RawSdp(s@),
            Descriptor::LocalSdpFile(s) => DescriptorView::LocalSdpFile(s@),
            Descriptor::SdpUrl(s) => DescriptorView::SdpUrl(s@),
            Descriptor::CustomStream(c) => DescriptorView::CustomStream(*c),
        }
    }
}

impl DescriptorView {
    /// Well-formedness: text fits in memory, custom streams meet their
    /// invariant.
    pub open spec fn wf(self) -> bool {
        match self {
            DescriptorView::RawSdp(s) => s.len() <= usize::MAX,
            DescriptorView::LocalSdpFile(s) => s.len() <= usize::MAX,
            DescriptorView::SdpUrl(s) => s.len() <= usize::MAX,
            DescriptorView::CustomStream(c) => c.wf(),
        }
    }

    /// What `play` accepts: text-based variants must be non-empty, a custom
    /// stream must meet its invariant.
    pub open spec fn playable(self) -> bool {
        match self {
            DescriptorView::RawSdp(s) => s.len() > 0,
            DescriptorView::LocalSdpFile(s) => s.len() > 0,
            DescriptorView::SdpUrl(s) => s.len() > 0,
            DescriptorView::CustomStream(c) => c.wf(),
        }
    }
}

impl Descriptor {
    /// Descriptor validation, performed by `play` before any resource is
    /// acquired.
    pub fn is_playable(&self) -> (r: bool)
        ensures
            r == self@.playable(),
    {
        match self {
            Descriptor::RawSdp(s) => !s.as_str().is_empty(),
            Descriptor::LocalSdpFile(s) => !s.as_str().is_empty(),
            Descriptor::SdpUrl(s) => !s.as_str().is_empty(),
            Descriptor::CustomStream(c) => c.channels > 0 && c.sample_rate > 0
                && c.packet_time_us > 0,
        }
    }
}

} // verus!
