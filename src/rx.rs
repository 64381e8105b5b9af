//! The receive side: the controller's RX ring in SRAM, and one received
//! frame with its Receive Status Vector.
use vstd::prelude::*;

use crate::RAW_FRAME_LENGTH_MAX;
use crate::spi::le16;

verus! {

/// Start of the RX ring in controller SRAM (ERXST after reset).
pub const ERXST_DEFAULT: u16 = 0x5340;

/// Initial RX tail (ERXTAIL after reset).
pub const ERXTAIL_DEFAULT: u16 = 0x5ffe;

/// Last address of the controller's SRAM.
pub const RX_MAX_ADDRESS: u16 = 0x5fff;

/// Length of the Receive Status Vector.
pub const RSV_LENGTH: usize = 6;

/// The three pointers of the RX ring.
pub struct RxBufferView {
    pub wrap_addr: u16,
    pub next_addr: u16,
    pub tail_addr: u16,
}

/// State of the controller-side RX ring: where it wraps, where the next
/// packet starts, and the tail the driver last released to.
pub struct RxBuffer {
    wrap_addr: u16,
    next_addr: u16,
    tail_addr: u16,
}

impl View for RxBuffer {
    type V = RxBufferView;

    closed spec fn view(&self) -> RxBufferView {
        RxBufferView {
            wrap_addr: self.wrap_addr,
            next_addr: self.next_addr,
            tail_addr: self.tail_addr,
        }
    }
}

impl RxBuffer {
    /// The ring as the controller has it after reset.
    pub fn new() -> (r: Self)
        ensures
            r@ == (RxBufferView {
                wrap_addr: ERXST_DEFAULT,
                next_addr: ERXST_DEFAULT,
                tail_addr: ERXTAIL_DEFAULT,
            }),
    {
        RxBuffer { wrap_addr: ERXST_DEFAULT, next_addr: ERXST_DEFAULT, tail_addr: ERXTAIL_DEFAULT }
    }

    pub fn set_wrap_addr(&mut self, addr: u16)
        ensures
            final(self)@ == (RxBufferView { wrap_addr: addr, ..old(self)@ }),
    {
        self.wrap_addr = addr;
    }

    pub fn get_wrap_addr(&self) -> (r: u16)
        ensures
            r == self@.wrap_addr,
    {
        self.wrap_addr
    }

    pub fn set_next_addr(&mut self, addr: u16)
        ensures
            final(self)@ == (RxBufferView { next_addr: addr, ..old(self)@ }),
    {
        self.next_addr = addr;
    }

    pub fn get_next_addr(&self) -> (r: u16)
        ensures
            r == self@.next_addr,
    {
        self.next_addr
    }

    pub fn set_tail_addr(&mut self, addr: u16)
        ensures
            final(self)@ == (RxBufferView { tail_addr: addr, ..old(self)@ }),
    {
        self.tail_addr = addr;
    }

    pub fn get_tail_addr(&self) -> (r: u16)
        ensures
            r == self@.tail_addr,
    {
        self.tail_addr
    }
}

/// Receive Status Vector: the six bytes the controller writes ahead of each
/// received frame. Bytes 0 and 1 hold the frame's length, little-endian.
struct Rsv {
    raw_rsv: [u8; RSV_LENGTH],
    frame_length: u16,
}

impl Rsv {
    fn new() -> (r: Self)
        ensures
            r.raw_rsv@ == Seq::new(RSV_LENGTH as nat, |i: int| 0u8),
            r.frame_length == 0,
    {
        let r = Rsv { raw_rsv: [0u8; RSV_LENGTH], frame_length: 0u16 };
        assert(r.raw_rsv@ =~= Seq::new(RSV_LENGTH as nat, |i: int| 0u8));
        r
    }

    fn write_to_rsv(&mut self, raw_rsv: &[u8])
        requires
            raw_rsv@.len() >= RSV_LENGTH,
        ensures
            final(self).raw_rsv@ == raw_rsv@.subrange(0, RSV_LENGTH as int),
            final(self).frame_length == old(self).frame_length,
    {
        let mut i: usize = 0;
        while i < RSV_LENGTH
            invariant
                0 <= i <= RSV_LENGTH,
                raw_rsv@.len() >= RSV_LENGTH,
                self.frame_length == old(self).frame_length,
                forall|j: int| 0 <= j < i ==> self.raw_rsv@[j] == raw_rsv@[j],
            decreases RSV_LENGTH - i,
        {
            self.raw_rsv[i] = raw_rsv[i];
            i += 1;
        }
        assert(self.raw_rsv@ =~= raw_rsv@.subrange(0, RSV_LENGTH as int));
    }

    fn read_raw_rsv(&self) -> (r: &[u8])
        ensures
            r@ == self.raw_rsv@,
    {
        self.raw_rsv.as_slice()
    }

    fn set_frame_length(&mut self)
        ensures
            final(self).raw_rsv == old(self).raw_rsv,
            final(self).frame_length == le16(old(self).raw_rsv@[0], old(self).raw_rsv@[1]),
    {
        let lo = self.raw_rsv[0];
        let hi = self.raw_rsv[1];
        self.frame_length = (lo as u16) | ((hi as u16) << 8);
        assert((lo as u16) | ((hi as u16) << 8) == ((hi as u16) << 8) | (lo as u16)) by (bit_vector);
    }

    fn get_frame_length(&self) -> (r: u16)
        ensures
            r == self.frame_length,
    {
        self.frame_length
    }
}

/// What a received packet holds: its status vector, its frame buffer (of
/// `RAW_FRAME_LENGTH_MAX` bytes) and the length of the frame in it.
pub struct RxPacketView {
    pub rsv: Seq<u8>,
    pub frame: Seq<u8>,
    pub frame_length: nat,
}

/// One received frame, with its Receive Status Vector.
pub struct RxPacket {
    rsv: Rsv,
    frame: [u8; RAW_FRAME_LENGTH_MAX],
    frame_length: usize,
}

impl View for RxPacket {
    type V = RxPacketView;

    closed spec fn view(&self) -> RxPacketView {
        RxPacketView {
            rsv: self.rsv.raw_rsv@,
            frame: self.frame@,
            frame_length: self.frame_length as nat,
        }
    }
}

/// The frame length that a status vector gives: bytes 0 and 1, little-endian.
pub open spec fn rsv_frame_length(rsv: Seq<u8>) -> nat {
    le16(rsv[0], rsv[1]) as nat
}

/// The packet after `write_to_rsv(raw)`.
pub open spec fn rsv_written(p: RxPacketView, raw: Seq<u8>) -> RxPacketView {
    RxPacketView { rsv: raw.subrange(0, RSV_LENGTH as int), ..p }
}

/// The packet after `update_frame_length`.
pub open spec fn length_updated(p: RxPacketView) -> RxPacketView {
    RxPacketView { frame_length: rsv_frame_length(p.rsv), ..p }
}

/// The packet after `write_to_frame(raw)`: the first `frame_length` bytes
/// come from `raw`, the others stay.
pub open spec fn frame_written(p: RxPacketView, raw: Seq<u8>) -> RxPacketView {
    RxPacketView {
        frame: raw.subrange(0, p.frame_length as int) + p.frame.skip(p.frame_length as int),
        ..p
    }
}

/// Writing a status vector and then updating the length gives the length
/// that the vector's first two bytes hold, little-endian.
pub proof fn lemma_frame_length_from_rsv(p: RxPacketView, raw: Seq<u8>)
    requires
        raw.len() >= RSV_LENGTH,
    ensures
        length_updated(rsv_written(p, raw)).frame_length == (raw[0] as u16 | (raw[1] as u16)
            << 8) as nat,
{
    let lo = raw[0];
    let hi = raw[1];
    assert(raw.subrange(0, RSV_LENGTH as int)[0] == lo);
    assert(raw.subrange(0, RSV_LENGTH as int)[1] == hi);
    assert((lo as u16) | ((hi as u16) << 8) == ((hi as u16) << 8) | (lo as u16)) by (bit_vector);
}

/// A packet's frame buffer always holds `RAW_FRAME_LENGTH_MAX` bytes, and
/// its status vector `RSV_LENGTH`.
pub proof fn lemma_rx_packet_lens(p: &RxPacket)
    ensures
        p@.frame.len() == RAW_FRAME_LENGTH_MAX,
        p@.rsv.len() == RSV_LENGTH,
{
}

impl RxPacket {
    /// An empty packet: zeroed status vector and frame, length 0.
    pub fn new() -> (r: Self)
        ensures
            r@.rsv == Seq::new(RSV_LENGTH as nat, |i: int| 0u8),
            r@.frame == Seq::new(RAW_FRAME_LENGTH_MAX as nat, |i: int| 0u8),
            r@.frame_length == 0,
    {
        let r = RxPacket {
            rsv: Rsv::new(),
            frame: [0u8; RAW_FRAME_LENGTH_MAX],
            frame_length: 0,
        };
        assert(r.frame@ =~= Seq::new(RAW_FRAME_LENGTH_MAX as nat, |i: int| 0u8));
        r
    }

    /// Stores the first six bytes of `raw_rsv` as the status vector.
    pub fn write_to_rsv(&mut self, raw_rsv: &[u8])
        requires
            raw_rsv@.len() >= RSV_LENGTH,
        ensures
            final(self)@ == rsv_written(old(self)@, raw_rsv@),
    {
        self.rsv.write_to_rsv(raw_rsv);
    }

    pub fn read_raw_rsv(&self) -> (r: &[u8])
        ensures
            r@ == self@.rsv,
    {
        self.rsv.read_raw_rsv()
    }

    /// Takes the frame length from the status vector.
    pub fn update_frame_length(&mut self)
        ensures
            final(self)@ == length_updated(old(self)@),
    {
        self.rsv.set_frame_length();
        self.frame_length = self.rsv.get_frame_length() as usize;
    }

    pub fn get_frame_length(&self) -> (r: usize)
        ensures
            r == self@.frame_length,
    {
        self.frame_length
    }

    /// Copies the first `frame_length` bytes of `raw_frame` into the frame.
    pub fn write_to_frame(&mut self, raw_frame: &[u8])
        requires
            old(self)@.frame_length <= RAW_FRAME_LENGTH_MAX,
            raw_frame@.len() >= old(self)@.frame_length,
        ensures
            final(self)@ == frame_written(old(self)@, raw_frame@),
    {
        let ghost before = self.frame@;
        let mut i: usize = 0;
        while i < self.frame_length
            invariant
                0 <= i <= self.frame_length,
                self.frame_length == old(self).frame_length,
                self.frame_length <= RAW_FRAME_LENGTH_MAX,
                raw_frame@.len() >= self.frame_length,
                self.rsv == old(self).rsv,
                self.frame@.len() == RAW_FRAME_LENGTH_MAX,
                forall|j: int| 0 <= j < i ==> self.frame@[j] == raw_frame@[j],
                forall|j: int| i <= j < RAW_FRAME_LENGTH_MAX ==> self.frame@[j] == before[j],
            decreases self.frame_length - i,
        {
            self.frame[i] = raw_frame[i];
            i += 1;
        }
        assert(self.frame@ =~= raw_frame@.subrange(0, self.frame_length as int) + before.skip(
            self.frame_length as int,
        ));
    }

    /// Copies the frame's first `frame_length` bytes to the front of `frame`.
    pub fn write_frame_to(&self, frame: &mut [u8])
        requires
            self@.frame_length <= RAW_FRAME_LENGTH_MAX,
            old(frame)@.len() >= self@.frame_length,
        ensures
            final(frame)@ == self@.frame.subrange(0, self@.frame_length as int) + old(
                frame,
            )@.skip(self@.frame_length as int),
    {
        let ghost before = frame@;
        let mut i: usize = 0;
        while i < self.frame_length
            invariant
                0 <= i <= self.frame_length,
                self.frame_length <= RAW_FRAME_LENGTH_MAX,
                frame@.len() == before.len(),
                before.len() >= self.frame_length,
                self.frame@.len() == RAW_FRAME_LENGTH_MAX,
                forall|j: int| 0 <= j < i ==> frame@[j] == self.frame@[j],
                forall|j: int| i <= j < before.len() ==> frame@[j] == before[j],
            decreases self.frame_length - i,
        {
            frame[i] = self.frame[i];
            i += 1;
        }
        assert(frame@ =~= self.frame@.subrange(0, self.frame_length as int) + before.skip(
            self.frame_length as int,
        ));
    }

    pub fn get_frame_byte(&self, i: usize) -> (r: u8)
        requires
            i < RAW_FRAME_LENGTH_MAX,
        ensures
            r == self@.frame[i as int],
    {
        self.frame[i]
    }
}

} // verus!
