//! Network types: MAC and IPv4 addresses, EtherType codes and the Ethernet
//! and IPv4 headers.
use vstd::prelude::*;

verus! {

/// A 48-bit MAC address.
#[derive(Debug, Clone, Copy, PartialEq, Eq)]
pub struct MacAddress(pub [u8; 6]);

impl MacAddress {
    /// The six octets, first transmitted first.
    pub fn octets(&self) -> (o: [u8; 6])
        ensures
            o@ == self.0@,
    {
        self.0
    }
}

/// The protocol carried by an Ethernet frame.
#[allow(nonstandard_style)]
#[derive(Debug, Copy, Clone, PartialEq, Eq, Structural)]
pub enum EtherType {
    Ipv4,
    Arp,
    WakeOnLan,
    ReverseArp,
    AppleTalk,
    Aarp,
    Vlan,
    Slpp,
    Vlacp,
    Ipx,
    Qnx,
    Ipv6,
    EthernetFlowControl,
    SlowProtocols,
    CobraNet,
    MplsUnicast,
    MplsMulticast,
    PPPoEDiscovery,
    PPPoESession,
    HomePlugMME,
    EapOverLan,
    Profinet,
    HyperScsi,
    ATAoE,
    EtherCAT,
    QinQ,
    Powerlink,
    Lldp,
    SercosIII,
    HomePlugGreenPhy,
    MediaRedundancy,
    MacSec,
    ProviderBackbone,
    Ptp,
    NcSi,
    Prp,
    Cfm,
    FCoE,
    FCoEInit,
    RoCE,
    TTEthernet,
    IEEE1905_1,
    Hsr,
    ConfigTest,
    Qinq9100,
    RedundancyTag,
}

impl EtherType {
    /// The 16-bit code of the protocol.
    pub open spec fn spec_value(self) -> u16 {
        match self {
            EtherType::Ipv4 => 0x0800,
            EtherType::Arp => 0x0806,
            EtherType::WakeOnLan => 0x0842,
            EtherType::ReverseArp => 0x8035,
            EtherType::AppleTalk => 0x809B,
            EtherType::Aarp => 0x80F3,
            EtherType::Vlan => 0x8100,
            EtherType::Slpp => 0x8102,
            EtherType::Vlacp => 0x8103,
            EtherType::Ipx => 0x8137,
            EtherType::Qnx => 0x8204,
            EtherType::Ipv6 => 0x86DD,
            EtherType::EthernetFlowControl => 0x8808,
            EtherType::SlowProtocols => 0x8809,
            EtherType::CobraNet => 0x8819,
            EtherType::MplsUnicast => 0x8847,
            EtherType::MplsMulticast => 0x8848,
            EtherType::PPPoEDiscovery => 0x8863,
            EtherType::PPPoESession => 0x8864,
            EtherType::HomePlugMME => 0x887B,
            EtherType::EapOverLan => 0x888E,
            EtherType::Profinet => 0x8892,
            EtherType::HyperScsi => 0x889A,
            EtherType::ATAoE => 0x88A2,
            EtherType::EtherCAT => 0x88A4,
            EtherType::QinQ => 0x88A8,
            EtherType::Powerlink => 0x88AB,
            EtherType::Lldp => 0x88CC,
            EtherType::SercosIII => 0x88CD,
            EtherType::HomePlugGreenPhy => 0x88E1,
            EtherType::MediaRedundancy => 0x88E3,
            EtherType::MacSec => 0x88E5,
            EtherType::ProviderBackbone => 0x88E7,
            EtherType::Ptp => 0x88F7,
            EtherType::NcSi => 0x88F8,
            EtherType::Prp => 0x88FB,
            EtherType::Cfm => 0x8902,
            EtherType::FCoE => 0x8906,
            EtherType::FCoEInit => 0x8914,
            EtherType::RoCE => 0x8915,
            EtherType::TTEthernet => 0x891D,
            EtherType::IEEE1905_1 => 0x893A,
            EtherType::Hsr => 0x892F,
            EtherType::ConfigTest => 0x9000,
            EtherType::Qinq9100 => 0x9100,
            EtherType::RedundancyTag => 0xF1C1,
        }
    }

    /// The 16-bit code of the protocol.
    pub fn value(self) -> (v: u16)
        ensures
            v == self.spec_value(),
    {
        match self {
            EtherType::Ipv4 => 0x0800,
            EtherType::Arp => 0x0806,
            EtherType::WakeOnLan => 0x0842,
            EtherType::ReverseArp => 0x8035,
            EtherType::AppleTalk => 0x809B,
            EtherType::Aarp => 0x80F3,
            EtherType::Vlan => 0x8100,
            EtherType::Slpp => 0x8102,
            EtherType::Vlacp => 0x8103,
            EtherType::Ipx => 0x8137,
            EtherType::Qnx => 0x8204,
            EtherType::Ipv6 => 0x86DD,
            EtherType::EthernetFlowControl => 0x8808,
            EtherType::SlowProtocols => 0x8809,
            EtherType::CobraNet => 0x8819,
            EtherType::MplsUnicast => 0x8847,
            EtherType::MplsMulticast => 0x8848,
            EtherType::PPPoEDiscovery => 0x8863,
            EtherType::PPPoESession => 0x8864,
            EtherType::HomePlugMME => 0x887B,
            EtherType::EapOverLan => 0x888E,
            EtherType::Profinet => 0x8892,
            EtherType::HyperScsi => 0x889A,
            EtherType::ATAoE => 0x88A2,
            EtherType::EtherCAT => 0x88A4,
            EtherType::QinQ => 0x88A8,
            EtherType::Powerlink => 0x88AB,
            EtherType::Lldp => 0x88CC,
            EtherType::SercosIII => 0x88CD,
            EtherType::HomePlugGreenPhy => 0x88E1,
            EtherType::MediaRedundancy => 0x88E3,
            EtherType::MacSec => 0x88E5,
            EtherType::ProviderBackbone => 0x88E7,
            EtherType::Ptp => 0x88F7,
            EtherType::NcSi => 0x88F8,
            EtherType::Prp => 0x88FB,
            EtherType::Cfm => 0x8902,
            EtherType::FCoE => 0x8906,
            EtherType::FCoEInit => 0x8914,
            EtherType::RoCE => 0x8915,
            EtherType::TTEthernet => 0x891D,
            EtherType::IEEE1905_1 => 0x893A,
            EtherType::Hsr => 0x892F,
            EtherType::ConfigTest => 0x9000,
            EtherType::Qinq9100 => 0x9100,
            EtherType::RedundancyTag => 0xF1C1,
        }
    }

    /// The protocol with code `value`, or `None` for a code not listed.
    pub fn from_value(value: u16) -> (t: Option<EtherType>)
        ensures
            t matches Some(e) ==> e.spec_value() == value,
            t is None ==> forall|e: EtherType| #[trigger] e.spec_value() != value,
    {
        match value {
            0x0800 => Some(EtherType::Ipv4),
            0x0806 => Some(EtherType::Arp),
            0x0842 => Some(EtherType::WakeOnLan),
            0x8035 => Some(EtherType::ReverseArp),
            0x809B => Some(EtherType::AppleTalk),
            0x80F3 => Some(EtherType::Aarp),
            0x8100 => Some(EtherType::Vlan),
            0x8102 => Some(EtherType::Slpp),
            0x8103 => Some(EtherType::Vlacp),
            0x8137 => Some(EtherType::Ipx),
            0x8204 => Some(EtherType::Qnx),
            0x86DD => Some(EtherType::Ipv6),
            0x8808 => Some(EtherType::EthernetFlowControl),
            0x8809 => Some(EtherType::SlowProtocols),
            0x8819 => Some(EtherType::CobraNet),
            0x8847 => Some(EtherType::MplsUnicast),
            0x8848 => Some(EtherType::MplsMulticast),
            0x8863 => Some(EtherType::PPPoEDiscovery),
            0x8864 => Some(EtherType::PPPoESession),
            0x887B => Some(EtherType::HomePlugMME),
            0x888E => Some(EtherType::EapOverLan),
            0x8892 => Some(EtherType::Profinet),
            0x889A => Some(EtherType::HyperScsi),
            0x88A2 => Some(EtherType::ATAoE),
            0x88A4 => Some(EtherType::EtherCAT),
            0x88A8 => Some(EtherType::QinQ),
            0x88AB => Some(EtherType::Powerlink),
            0x88CC => Some(EtherType::Lldp),
            0x88CD => Some(EtherType::SercosIII),
            0x88E1 => Some(EtherType::HomePlugGreenPhy),
            0x88E3 => Some(EtherType::MediaRedundancy),
            0x88E5 => Some(EtherType::MacSec),
            0x88E7 => Some(EtherType::ProviderBackbone),
            0x88F7 => Some(EtherType::Ptp),
            0x88F8 => Some(EtherType::NcSi),
            0x88FB => Some(EtherType::Prp),
            0x8902 => Some(EtherType::Cfm),
            0x8906 => Some(EtherType::FCoE),
            0x8914 => Some(EtherType::FCoEInit),
            0x8915 => Some(EtherType::RoCE),
            0x891D => Some(EtherType::TTEthernet),
            0x893A => Some(EtherType::IEEE1905_1),
            0x892F => Some(EtherType::Hsr),
            0x9000 => Some(EtherType::ConfigTest),
            0x9100 => Some(EtherType::Qinq9100),
            0xF1C1 => Some(EtherType::RedundancyTag),
            _ => None,
        }
    }
}

/// Reading a protocol back from its code gives the same protocol.
pub proof fn lemma_ether_type_codes_distinct(a: EtherType, b: EtherType)
    ensures
        a.spec_value() == b.spec_value() ==> a == b,
{
}

/// The header of an Ethernet frame.
#[derive(Debug, Clone, Copy, PartialEq, Eq)]
pub struct EthernetFrameHeader {
    pub destination_mac: MacAddress,
    pub source_mac: MacAddress,
    pub ether_type: EtherType,
}

/// An IPv4 address.
#[derive(Debug, Clone, Copy, PartialEq, Eq)]
pub struct Ipv4Addr {
    octets: [u8; 4],
}

impl View for Ipv4Addr {
    type V = Seq<u8>;

    closed spec fn view(&self) -> Seq<u8> {
        self.octets@
    }
}

impl Ipv4Addr {
    /// The address with the given octets.
    pub fn new(octets: [u8; 4]) -> (a: Self)
        ensures
            a@ == octets@,
    {
        Ipv4Addr { octets }
    }

    /// The octets of the address.
    pub fn octets(&self) -> (o: [u8; 4])
        ensures
            o@ == self@,
    {
        self.octets
    }
}

/// The header of an IPv4 packet.
#[derive(Debug, Clone, Copy, PartialEq, Eq)]
pub struct Ipv4Header {
    /// Version (4 bits) and header length in 32-bit words (4 bits).
    pub version_ihl: u8,
    /// DSCP (6 bits) and ECN (2 bits).
    pub dscp_ecn: u8,
    /// Length of header and data.
    pub total_length: u16,
    pub identification: u16,
    /// Flags (3 bits) and fragment offset (13 bits).
    pub flags_fragment: u16,
    pub ttl: u8,
    pub protocol: u8,
    pub header_checksum: u16,
    pub source_address: Ipv4Addr,
    pub dest_address: Ipv4Addr,
}

} // verus!
