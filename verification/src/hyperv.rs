//! VMBus channels: the sizes of a channel's ring buffers, the requests that set
//! a channel up, and the framing of the packets that travel through it.
//!
//! A packet in a ring buffer is its header, its payload, zero padding up to a
//! multiple of 8 bytes, and an 8-byte footer that holds the offset of the
//! packet's first byte.
use vstd::prelude::*;

verus! {

/// Size of a Hyper-V page.
pub const HYPERV_PAGE_SIZE: usize = 4096;
/// Size of a normal packet header (type, header length, packet length and
/// flags as 16-bit words, then a 64-bit transaction id).
pub const NORMAL_PACKET_HEADER_SIZE: usize = 16;
/// Size of the footer that ends every packet.
pub const PACKET_FOOTER_SIZE: usize = 8;
/// Size of the header of a GPA-direct packet with one range, before its list
/// of page frame numbers.
pub const GPA_DIRECT_HEADER_SIZE: usize = 32;
/// Packet type of a GPA-direct data packet.
pub const PACKET_TYPE_DATA_USING_GPA_DIRECT: u16 = 9;

/// A device offered over VMBus by the host.
pub trait VmBusSyntheticDevice {
    fn initialize(&self) -> bool;
    fn has_data_to_process(&self) -> bool;
    fn process_incoming_data(&self);
}

/// A screen resolution in pixels.
#[derive(Clone, Copy, PartialEq, Eq, Structural, Debug)]
pub struct Resolution {
    pub width: usize,
    pub height: usize,
}

/// A rectangle of the screen that changed, by two corners.
#[derive(Clone, Copy, PartialEq, Eq, Structural, Debug)]
pub struct DirtyRectangle {
    pub x1: i32,
    pub y1: i32,
    pub x2: i32,
    pub y2: i32,
}

/// How a payload of `len` bytes is framed in a ring buffer.
#[derive(Clone, Copy, PartialEq, Eq, Structural, Debug)]
pub struct PacketFraming {
    /// Zero bytes after the payload, up to a multiple of 8.
    pub padding: usize,
    /// Bytes the whole packet takes, footer included.
    pub tx_len: usize,
    /// Length of the packet without its footer, in 8-byte words, as the
    /// header records it.
    pub packet_len_qword: u16,
}

/// The part of a received packet that is payload and the bytes the packet
/// takes in the ring buffer.
#[derive(Clone, Copy, PartialEq, Eq, Structural, Debug)]
pub struct ReceivedPacketLayout {
    pub data_offset: usize,
    pub data_len: usize,
    pub consumed_len: usize,
}

/// The page list that describes an outside buffer in a GPA-direct packet.
#[derive(Clone, Copy, PartialEq, Eq, Structural, Debug)]
pub struct GpaDirectLayout {
    /// Pages that the buffer touches.
    pub pfn_count: usize,
    /// Bytes of the packet header with its page list.
    pub header_len: usize,
    /// Offset of the buffer in its first page.
    pub starting_byte_offset: u32,
}

/// The request that shares a channel's ring buffer pages with the host.
#[derive(Clone, Copy, PartialEq, Eq, Structural, Debug)]
pub struct GpadlRequest {
    pub channel_id: u32,
    pub starting_address: u64,
    pub byte_count: usize,
}

/// The request that opens a channel.
#[derive(Clone, Copy, PartialEq, Eq, Structural, Debug)]
pub struct OpenChannelRequest {
    pub channel_id: u32,
    pub open_id: u32,
    pub gpadl_id: u32,
    pub target_vp: u32,
    pub outbound_page_offset: u32,
}

/// The padding that brings `len` up to a multiple of 8.
pub open spec fn spec_padding(len: int) -> int {
    (8 - len % 8) % 8
}

/// A VMBus channel: the offer it answers and the ring buffer memory behind it.
#[derive(Clone, Copy, Debug)]
pub struct VmBusChannel {
    /// Channel id of the host's offer.
    pub offer_channel_id: u32,
    /// Connection id to signal the host on.
    pub connection_id: u32,
    /// Id of the shared page list; 0 until the channel is initialized.
    pub gpadl_id: u32,
    /// Id of the opened channel; 0 until the channel is initialized.
    pub channel_id: u32,
    /// Physical address of the first page of the ring buffers.
    pub starting_frame: u64,
    /// Pages of both ring buffers with their header pages.
    pub channel_size: usize,
    /// Pages of the transmit ring buffer with its header page.
    pub tx_ring_pages: usize,
}

impl VmBusChannel {
    /// The pages that a channel with rings of `tx_byte_count` and
    /// `rx_byte_count` bytes needs: both rings and a header page for each.
    pub fn pages_needed(tx_byte_count: usize, rx_byte_count: usize) -> (r: usize)
        requires
            tx_byte_count / HYPERV_PAGE_SIZE + rx_byte_count / HYPERV_PAGE_SIZE + 2 <= usize::MAX,
        ensures
            r == tx_byte_count / HYPERV_PAGE_SIZE + rx_byte_count / HYPERV_PAGE_SIZE + 2,
    {
        tx_byte_count / HYPERV_PAGE_SIZE + rx_byte_count / HYPERV_PAGE_SIZE + 2
    }

    /// A channel for the offer `offer_channel_id` (signalled on
    /// `connection_id`) whose rings of `tx_byte_count` and `rx_byte_count`
    /// bytes live in the pages from `starting_frame` on. The ring sizes are
    /// whole pages and equal.
    pub fn new(
        offer_channel_id: u32,
        connection_id: u32,
        tx_byte_count: usize,
        rx_byte_count: usize,
        starting_frame: u64,
    ) -> (r: Self)
        requires
            tx_byte_count % HYPERV_PAGE_SIZE == 0,
            rx_byte_count % HYPERV_PAGE_SIZE == 0,
            tx_byte_count == rx_byte_count,
        ensures
            r.offer_channel_id == offer_channel_id,
            r.connection_id == connection_id,
            r.gpadl_id == 0,
            r.channel_id == 0,
            r.starting_frame == starting_frame,
            r.channel_size == tx_byte_count / HYPERV_PAGE_SIZE + rx_byte_count / HYPERV_PAGE_SIZE
                + 2,
            r.tx_ring_pages == tx_byte_count / HYPERV_PAGE_SIZE + 1,
    {
        let tx_pages = tx_byte_count / HYPERV_PAGE_SIZE;
        let rx_pages = rx_byte_count / HYPERV_PAGE_SIZE;
        let size_in_pages = tx_pages + rx_pages;
        VmBusChannel {
            offer_channel_id,
            connection_id,
            gpadl_id: 0,
            channel_id: 0,
            starting_frame,
            channel_size: size_in_pages + 2,
            tx_ring_pages: tx_pages + 1,
        }
    }

    /// The request that shares the ring buffer pages with the host.
    pub fn gpadl_request(&self) -> (r: GpadlRequest)
        requires
            self.channel_size * HYPERV_PAGE_SIZE <= usize::MAX,
        ensures
            r.channel_id == self.offer_channel_id,
            r.starting_address == self.starting_frame,
            r.byte_count == self.channel_size * HYPERV_PAGE_SIZE,
    {
        GpadlRequest {
            channel_id: self.offer_channel_id,
            starting_address: self.starting_frame,
            byte_count: self.channel_size * HYPERV_PAGE_SIZE,
        }
    }

    /// The request that opens the channel once the host has accepted the
    /// page list `gpadl_id`: the outbound ring starts halfway.
    pub fn open_channel_request(&self, gpadl_id: u32) -> (r: OpenChannelRequest)
        requires
            self.channel_size <= u32::MAX,
        ensures
            r.channel_id == self.offer_channel_id,
            r.open_id == self.offer_channel_id,
            r.gpadl_id == gpadl_id,
            r.target_vp == 0,
            r.outbound_page_offset == self.channel_size / 2,
    {
        OpenChannelRequest {
            channel_id: self.offer_channel_id,
            open_id: self.offer_channel_id,
            gpadl_id,
            target_vp: 0,
            outbound_page_offset: self.channel_size as u32 / 2,
        }
    }

    /// Records that the channel was set up with the page list `gpadl_id` and
    /// opened: its id is the offer's.
    pub fn initialize(&mut self, gpadl_id: u32)
        ensures
            *final(self) == (VmBusChannel {
                gpadl_id,
                channel_id: old(self).offer_channel_id,
                ..*old(self)
            }),
    {
        self.gpadl_id = gpadl_id;
        self.channel_id = self.offer_channel_id;
    }

    /// Whether the receive ring holds data: its read and write offsets differ.
    pub fn has_data_to_process(rx_read_offset: u32, rx_write_offset: u32) -> (r: bool)
        ensures
            r == (rx_read_offset != rx_write_offset),
    {
        rx_read_offset != rx_write_offset
    }

    /// How a payload of `len` bytes after a header of `header_len_qword`
    /// 8-byte words is framed.
    pub fn packet_framing(header_len_qword: u16, len: usize) -> (r: PacketFraming)
        requires
            header_len_qword * 8 + len + 7 + PACKET_FOOTER_SIZE <= usize::MAX,
            (header_len_qword * 8 + len + 7) / 8 <= u16::MAX,
        ensures
            r.padding == spec_padding(len as int),
            r.padding < 8,
            r.tx_len == header_len_qword * 8 + len + r.padding + PACKET_FOOTER_SIZE,
            r.tx_len % 8 == 0,
            r.packet_len_qword == (r.tx_len - PACKET_FOOTER_SIZE) / 8,
    {
        let header_len = header_len_qword as usize * 8;
        let low = len & 7;
        proof {
            crate::bits::lemma_usize_low_bits(len);
        }
        let diff: usize = 8 - low;
        let padding = diff & 7;
        proof {
            crate::bits::lemma_usize_low_bits(diff);
        }
        let tx_len = header_len + len + padding + PACKET_FOOTER_SIZE;
        PacketFraming {
            padding,
            tx_len,
            packet_len_qword: ((tx_len - PACKET_FOOTER_SIZE) / 8) as u16,
        }
    }

    /// Where the payload of a received packet lies and how many bytes the
    /// packet takes, from its header's lengths in 8-byte words; `None` when
    /// the header claims to be longer than the packet.
    pub fn received_packet_layout(header_len_qword: u16, packet_len_qword: u16) -> (r: Option<
        ReceivedPacketLayout,
    >)
        ensures
            match r {
                None => header_len_qword > packet_len_qword,
                Some(l) => header_len_qword <= packet_len_qword && l.data_offset == header_len_qword
                    * 8 && l.data_len == (packet_len_qword - header_len_qword) * 8 && l.consumed_len
                    == packet_len_qword * 8 + PACKET_FOOTER_SIZE,
            },
    {
        if header_len_qword > packet_len_qword {
            return None;
        }
        let header_size = header_len_qword as usize * 8;
        Some(
            ReceivedPacketLayout {
                data_offset: header_size,
                data_len: packet_len_qword as usize * 8 - header_size,
                consumed_len: packet_len_qword as usize * 8 + PACKET_FOOTER_SIZE,
            },
        )
    }

    /// The page list of a GPA-direct packet for a buffer of `buffer_len`
    /// bytes at the address `buffer_address`.
    pub fn gpa_direct_layout(buffer_address: usize, buffer_len: usize) -> (r: GpaDirectLayout)
        requires
            buffer_len > 0,
            buffer_address + buffer_len <= usize::MAX,
            GPA_DIRECT_HEADER_SIZE + ((buffer_address + buffer_len - 1) / 4096 - buffer_address
                / 4096 + 1) * 8 <= usize::MAX,
        ensures
            r.pfn_count == (buffer_address + buffer_len - 1) / 4096 - buffer_address / 4096 + 1,
            r.header_len == GPA_DIRECT_HEADER_SIZE + r.pfn_count * 8,
            r.starting_byte_offset == buffer_address % HYPERV_PAGE_SIZE,
    {
        let first_pfn = buffer_address / HYPERV_PAGE_SIZE;
        let last_pfn = (buffer_address + buffer_len - 1) / HYPERV_PAGE_SIZE;
        proof {
            assert(first_pfn <= last_pfn) by (nonlinear_arith)
                requires
                    first_pfn == buffer_address / 4096,
                    last_pfn == (buffer_address + buffer_len - 1) / 4096,
                    buffer_len > 0,
            ;
        }
        let pfn_count = last_pfn - first_pfn + 1;
        let offset = buffer_address & (HYPERV_PAGE_SIZE - 1);
        proof {
            crate::bits::lemma_usize_low_bits(buffer_address);
        }
        GpaDirectLayout {
            pfn_count,
            header_len: GPA_DIRECT_HEADER_SIZE + pfn_count * 8,
            starting_byte_offset: offset as u32,
        }
    }

    /// The page frame number of a physical address.
    pub fn page_frame_number(physical_address: u64) -> (r: u64)
        ensures
            r == physical_address / 4096,
    {
        physical_address / HYPERV_PAGE_SIZE as u64
    }
}

} // verus!
