//! The transmit side: the write cursor in the controller's general-purpose
//! SRAM, and one frame staged for sending.
use vstd::prelude::*;

use crate::RAW_FRAME_LENGTH_MAX;

verus! {

/// Start of the general-purpose SRAM buffer.
pub const GPBUFST_DEFAULT: u16 = 0x0000;

/// End of the general-purpose SRAM buffer, where the RX ring starts.
pub const GPBUFEN_DEFAULT: u16 = 0x5340;

/// The three pointers of the TX staging area.
pub struct TxBufferView {
    pub wrap_addr: u16,
    pub next_addr: u16,
    pub tail_addr: u16,
}

/// State of the controller-side TX staging area: the next frame is written
/// at `next_addr`.
pub struct TxBuffer {
    wrap_addr: u16,
    next_addr: u16,
    tail_addr: u16,
}

impl View for TxBuffer {
    type V = TxBufferView;

    closed spec fn view(&self) -> TxBufferView {
        TxBufferView {
            wrap_addr: self.wrap_addr,
            next_addr: self.next_addr,
            tail_addr: self.tail_addr,
        }
    }
}

/// Where the next frame goes after one of `len` bytes was staged at `next`.
pub open spec fn tx_advance(next: int, len: int) -> int {
    (next + len) % (GPBUFEN_DEFAULT as int)
}

/// The cursor after frames of the lengths in `lens`, in order, were sent
/// from `start`.
pub open spec fn tx_after(start: int, lens: Seq<int>) -> int
    decreases lens.len(),
{
    if lens.len() == 0 {
        start
    } else {
        tx_advance(tx_after(start, lens.drop_last()), lens.last())
    }
}

pub open spec fn sum(lens: Seq<int>) -> int
    decreases lens.len(),
{
    if lens.len() == 0 {
        0
    } else {
        sum(lens.drop_last()) + lens.last()
    }
}

/// After any number of sends the cursor stands at the start plus the total
/// length sent, modulo the end of the general-purpose buffer.
pub proof fn lemma_tx_cursor_after_sends(start: int, lens: Seq<int>)
    requires
        0 <= start < GPBUFEN_DEFAULT,
    ensures
        tx_after(start, lens) == (start + sum(lens)) % (GPBUFEN_DEFAULT as int),
    decreases lens.len(),
{
    let m = GPBUFEN_DEFAULT as int;
    if lens.len() == 0 {
        vstd::arithmetic::div_mod::lemma_small_mod(start as nat, m as nat);
    } else {
        lemma_tx_cursor_after_sends(start, lens.drop_last());
        vstd::arithmetic::div_mod::lemma_add_mod_noop_right(
            lens.last(),
            start + sum(lens.drop_last()),
            m,
        );
    }
}

/// Cursors taken one send after another, each advanced past the frame of
/// that send from the one before, end at the first cursor plus the total
/// length sent, modulo the end of the general-purpose buffer.
pub proof fn lemma_tx_cursor_chain(cursors: Seq<int>, lens: Seq<int>)
    requires
        cursors.len() == lens.len() + 1,
        0 <= cursors[0] < GPBUFEN_DEFAULT,
        forall|i: int| 0 <= i < lens.len() ==> #[trigger] cursors[i + 1] == tx_advance(cursors[i], lens[i]),
    ensures
        cursors.last() == (cursors[0] + sum(lens)) % (GPBUFEN_DEFAULT as int),
{
    lemma_tx_cursor_steps(cursors, lens);
    lemma_tx_cursor_after_sends(cursors[0], lens);
}

/// Each cursor of such a chain is `tx_after` of the lengths before it.
proof fn lemma_tx_cursor_steps(cursors: Seq<int>, lens: Seq<int>)
    requires
        cursors.len() == lens.len() + 1,
        forall|i: int| 0 <= i < lens.len() ==> #[trigger] cursors[i + 1] == tx_advance(cursors[i], lens[i]),
    ensures
        cursors.last() == tx_after(cursors[0], lens),
    decreases lens.len(),
{
    if lens.len() > 0 {
        let c = cursors.drop_last();
        let l = lens.drop_last();
        assert forall|i: int| 0 <= i < l.len() implies #[trigger] c[i + 1] == tx_advance(c[i], l[i]) by {
            assert(cursors[i + 1] == tx_advance(cursors[i], lens[i]));
        }
        lemma_tx_cursor_steps(c, l);
        assert(cursors[lens.len() as int] == tx_advance(cursors[lens.len() - 1], lens[lens.len() - 1]));
    }
}

impl TxBuffer {
    /// The staging area as the driver starts it: frames go from address 1.
    pub fn new() -> (r: Self)
        ensures
            r@ == (TxBufferView {
                wrap_addr: GPBUFST_DEFAULT,
                next_addr: (GPBUFST_DEFAULT + 1) as u16,
                tail_addr: GPBUFST_DEFAULT,
            }),
    {
        TxBuffer {
            wrap_addr: GPBUFST_DEFAULT,
            next_addr: GPBUFST_DEFAULT + 1,
            tail_addr: GPBUFST_DEFAULT,
        }
    }

    pub fn set_wrap_addr(&mut self, addr: u16)
        ensures
            final(self)@ == (TxBufferView { wrap_addr: addr, ..old(self)@ }),
    {
        self.wrap_addr = addr;
    }

    pub fn get_wrap_addr(&self) -> (r: u16)
        ensures
            r == self@.wrap_addr,
    {
        self.wrap_addr
    }

    pub fn set_next_addr(&mut self, addr: u16)
        ensures
            final(self)@ == (TxBufferView { next_addr: addr, ..old(self)@ }),
    {
        self.next_addr = addr;
    }

    pub fn get_next_addr(&self) -> (r: u16)
        ensures
            r == self@.next_addr,
    {
        self.next_addr
    }

    pub fn set_tail_addr(&mut self, addr: u16)
        ensures
            final(self)@ == (TxBufferView { tail_addr: addr, ..old(self)@ }),
    {
        self.tail_addr = addr;
    }

    pub fn get_tail_addr(&self) -> (r: u16)
        ensures
            r == self@.tail_addr,
    {
        self.tail_addr
    }
}

/// What a staged packet holds: its frame buffer (of `RAW_FRAME_LENGTH_MAX`
/// bytes) and the length of the frame in it.
pub struct TxPacketView {
    pub frame: Seq<u8>,
    pub frame_length: nat,
}

/// One frame staged for sending.
pub struct TxPacket {
    frame: [u8; RAW_FRAME_LENGTH_MAX],
    frame_length: usize,
}

impl View for TxPacket {
    type V = TxPacketView;

    closed spec fn view(&self) -> TxPacketView {
        TxPacketView { frame: self.frame@, frame_length: self.frame_length as nat }
    }
}

/// A packet's frame buffer always holds `RAW_FRAME_LENGTH_MAX` bytes, and
/// a packet that keeps its invariant has a frame no longer than that.
pub proof fn lemma_tx_frame_len(p: &TxPacket)
    ensures
        p@.frame.len() == RAW_FRAME_LENGTH_MAX,
        p.inv() ==> p@.frame_length <= RAW_FRAME_LENGTH_MAX,
{
}

impl TxPacket {
    /// The frame fits its buffer.
    #[verifier::type_invariant]
    pub closed spec fn inv(&self) -> bool {
        self.frame_length <= RAW_FRAME_LENGTH_MAX
    }

    /// An empty packet: zeroed frame, length 0.
    pub fn new() -> (r: Self)
        ensures
            r@.frame == Seq::new(RAW_FRAME_LENGTH_MAX as nat, |i: int| 0u8),
            r@.frame_length == 0,
    {
        let r = TxPacket { frame: [0u8; RAW_FRAME_LENGTH_MAX], frame_length: 0 };
        assert(r.frame@ =~= Seq::new(RAW_FRAME_LENGTH_MAX as nat, |i: int| 0u8));
        r
    }

    /// Copies the first `raw_frame_length` bytes of `raw_frame` in as the
    /// frame.
    pub fn update_frame(&mut self, raw_frame: &[u8], raw_frame_length: usize)
        requires
            raw_frame_length <= RAW_FRAME_LENGTH_MAX,
            raw_frame@.len() >= raw_frame_length,
        ensures
            final(self)@.frame_length == raw_frame_length,
            final(self)@.frame == raw_frame@.subrange(0, raw_frame_length as int) + old(
                self,
            )@.frame.skip(raw_frame_length as int),
    {
        self.frame_length = raw_frame_length;
        let ghost before = self.frame@;
        let mut i: usize = 0;
        while i < self.frame_length
            invariant
                0 <= i <= self.frame_length,
                self.frame_length == raw_frame_length,
                raw_frame_length <= RAW_FRAME_LENGTH_MAX,
                raw_frame@.len() >= raw_frame_length,
                self.frame@.len() == RAW_FRAME_LENGTH_MAX,
                forall|j: int| 0 <= j < i ==> self.frame@[j] == raw_frame@[j],
                forall|j: int| i <= j < RAW_FRAME_LENGTH_MAX ==> self.frame@[j] == before[j],
            decreases self.frame_length - i,
        {
            self.frame[i] = raw_frame[i];
            i += 1;
        }
        assert(self.frame@ =~= raw_frame@.subrange(0, raw_frame_length as int) + before.skip(
            raw_frame_length as int,
        ));
    }

    /// Copies the frame's first `frame_length` bytes to the front of `frame`.
    pub fn write_frame_to(&self, frame: &mut [u8])
        requires
            old(frame)@.len() >= self@.frame_length,
        ensures
            final(frame)@ == self@.frame.subrange(0, self@.frame_length as int) + old(
                frame,
            )@.skip(self@.frame_length as int),
    {
        proof {
            use_type_invariant(self);
        }
        let ghost before = frame@;
        let mut i: usize = 0;
        while i < self.frame_length
            invariant
                0 <= i <= self.frame_length,
                self.frame_length <= RAW_FRAME_LENGTH_MAX,
                frame@.len() == before.len(),
                before.len() >= self.frame_length,
                self.frame@.len() == RAW_FRAME_LENGTH_MAX,
                forall|j: int| 0 <= j < i ==> frame@[j] == self.frame@[j],
                forall|j: int| i <= j < before.len() ==> frame@[j] == before[j],
            decreases self.frame_length - i,
        {
            frame[i] = self.frame[i];
            i += 1;
        }
        assert(frame@ =~= self.frame@.subrange(0, self.frame_length as int) + before.skip(
            self.frame_length as int,
        ));
    }

    pub fn get_frame_length(&self) -> (r: usize)
        ensures
            r == self@.frame_length,
    {
        self.frame_length
    }

    /// The whole frame buffer.
    pub fn get_frame(&self) -> (r: &[u8])
        ensures
            r@ == self@.frame,
    {
        self.frame.as_slice()
    }

    /// The whole frame buffer, to fill in place; the length stays.
    pub fn get_mut_frame(&mut self) -> (r: &mut [u8])
        ensures
            r@ == old(self)@.frame,
            final(self)@ == (TxPacketView { frame: final(r)@, ..old(self)@ }),
    {
        proof {
            use_type_invariant(&*self);
        }
        &mut self.frame
    }

    pub fn get_frame_byte(&self, i: usize) -> (r: u8)
        requires
            i < RAW_FRAME_LENGTH_MAX,
        ensures
            r == self@.frame[i as int],
    {
        self.frame[i]
    }
}

} // verus!
