//! The controller as a packet device for a polled network stack: it owns
//! the controller and two frame buffers, one for the frame last received and
//! one for the frame the stack fills before it is sent.
use vstd::prelude::*;

use crate::rx::{rsv_frame_length, RxBufferView};
use crate::spi::{
    aborted, completed, extends, performed, reg_value, since, window_data, ChipSelect,
    SpiTransfer,
};
use crate::tx::{tx_advance, TxBufferView, TxPacket};
use crate::{
    eir_polls, send_run_script, send_setup_len, txrts_set, EthControllerError, SpiEth,
    POLL_LIMIT, RAW_FRAME_LENGTH_MAX,
};

verus! {

/// Packet-device adapter: the controller and its two scratch frames.
pub struct SmoltcpDevice<SPI: SpiTransfer, NSS: ChipSelect> {
    eth_controller: SpiEth<SPI, NSS>,
    rx_packet_buf: [u8; RAW_FRAME_LENGTH_MAX],
    tx_packet_buf: [u8; RAW_FRAME_LENGTH_MAX],
}

impl<SPI: SpiTransfer, NSS: ChipSelect> SmoltcpDevice<SPI, NSS> {
    pub closed spec fn controller(&self) -> SpiEth<SPI, NSS> {
        self.eth_controller
    }

    /// The frame buffer that holds the frame last received.
    pub closed spec fn rx_frame(&self) -> Seq<u8> {
        self.rx_packet_buf@
    }

    /// The frame buffer that the stack fills before a send.
    pub closed spec fn tx_frame(&self) -> Seq<u8> {
        self.tx_packet_buf@
    }

    pub open spec fn wf(&self) -> bool {
        &&& self.controller().wf()
        &&& self.rx_frame().len() == RAW_FRAME_LENGTH_MAX
        &&& self.tx_frame().len() == RAW_FRAME_LENGTH_MAX
    }

    pub fn new(eth_controller: SpiEth<SPI, NSS>) -> (r: Self)
        requires
            eth_controller.wf(),
        ensures
            r.wf(),
            r.controller() == eth_controller,
            r.rx_frame() == Seq::new(RAW_FRAME_LENGTH_MAX as nat, |i: int| 0u8),
            r.tx_frame() == Seq::new(RAW_FRAME_LENGTH_MAX as nat, |i: int| 0u8),
    {
        let r = SmoltcpDevice {
            eth_controller,
            rx_packet_buf: [0u8; RAW_FRAME_LENGTH_MAX],
            tx_packet_buf: [0u8; RAW_FRAME_LENGTH_MAX],
        };
        assert(r.rx_packet_buf@ =~= Seq::new(RAW_FRAME_LENGTH_MAX as nat, |i: int| 0u8));
        assert(r.tx_packet_buf@ =~= Seq::new(RAW_FRAME_LENGTH_MAX as nat, |i: int| 0u8));
        r
    }

    /// The largest frame the device takes or gives.
    pub fn max_transmission_unit(&self) -> (r: usize)
        ensures
            r == RAW_FRAME_LENGTH_MAX,
    {
        RAW_FRAME_LENGTH_MAX
    }

    /// Receives a waiting packet, without waiting for one, into the RX
    /// frame buffer; returns its length. `None` where no packet waits, the
    /// bus failed, or the packet was longer than a frame buffer.
    pub fn receive(&mut self) -> (r: Option<usize>)
        requires
            old(self).wf(),
        ensures
            final(self).wf(),
            final(self).tx_frame() == old(self).tx_frame(),
            final(self).controller().tx_view() == old(self).controller().tx_view(),
            extends(
                old(self).controller().transactions(),
                final(self).controller().transactions(),
            ),
            ({
                let ts = since(
                    old(self).controller().transactions(),
                    final(self).controller().transactions(),
                );
                &&& (r matches Some(n) ==> completed(ts) && ts.len() == 11 && eir_polls(ts, 1, true)
                    && n == rsv_frame_length(window_data(ts[5])) && n <= RAW_FRAME_LENGTH_MAX
                    && final(self).rx_frame().take(n as int) == window_data(ts[6])
                    && final(self).controller().rx_view() == (RxBufferView {
                    next_addr: crate::next_of(ts[4]),
                    ..old(self).controller().rx_view()
                }))
                &&& (r is None ==> aborted(ts) || (completed(ts) && ts.len() == 2 && eir_polls(
                    ts,
                    1,
                    false,
                )) || (completed(ts) && ts.len() == 6 && rsv_frame_length(window_data(ts[5]))
                    > RAW_FRAME_LENGTH_MAX))
            }),
    {
        let ghost t0 = self.eth_controller.transactions();
        match self.eth_controller.receive_next(false) {
            Ok(rx_packet) => {
                proof {
                    crate::rx::lemma_rx_packet_lens(&rx_packet);
                    let ts = since(t0, self.eth_controller.transactions());
                    let u = ts.skip(2);
                    assert(u[2] == ts[4]);
                    assert(u[3] == ts[5]);
                    assert(u[4] == ts[6]);
                }
                // Write the received frame to the RX frame buffer.
                rx_packet.write_frame_to(&mut self.rx_packet_buf);
                let len = rx_packet.get_frame_length();
                proof {
                    assert(self.rx_packet_buf@.take(len as int) =~= rx_packet@.frame.take(
                        len as int,
                    ));
                }
                Some(len)
            },
            Err(_) => {
                proof {
                    let ts = since(t0, self.eth_controller.transactions());
                    if !aborted(ts) && ts.len() == 6 {
                        assert(ts.skip(2)[3] == ts[5]);
                    }
                }
                None
            },
        }
    }

    /// The RX frame buffer, for the stack to read the frame in place.
    pub fn rx_buffer(&mut self) -> (r: &mut [u8])
        ensures
            r@ == old(self).rx_frame(),
            final(self).rx_frame() == final(r)@,
            final(self).tx_frame() == old(self).tx_frame(),
            final(self).controller() == old(self).controller(),
    {
        &mut self.rx_packet_buf
    }

    /// The TX frame buffer, for the stack to fill before `transmit`.
    pub fn tx_buffer(&mut self) -> (r: &mut [u8])
        ensures
            r@ == old(self).tx_frame(),
            final(self).tx_frame() == final(r)@,
            final(self).rx_frame() == old(self).rx_frame(),
            final(self).controller() == old(self).controller(),
    {
        &mut self.tx_packet_buf
    }

    /// Sends the first `len` bytes of the TX frame buffer.
    pub fn transmit(&mut self, len: usize) -> (r: Result<(), EthControllerError>)
        requires
            old(self).wf(),
            len <= RAW_FRAME_LENGTH_MAX,
        ensures
            final(self).wf(),
            final(self).rx_frame() == old(self).rx_frame(),
            final(self).tx_frame() == old(self).tx_frame(),
            final(self).controller().rx_view() == old(self).controller().rx_view(),
            ({
                let t0 = old(self).controller().transactions();
                let ts = since(t0, final(self).controller().transactions());
                let frame = old(self).tx_frame().take(len as int);
                let n = ts.len() - send_setup_len();
                &&& performed(
                    t0,
                    final(self).controller().transactions(),
                    send_run_script(old(self).controller().tx_view().next_addr, frame, ts),
                )
                &&& (r == Err::<(), EthControllerError>(EthControllerError::SpiPortError)
                    <==> !completed(ts))
                &&& (r is Ok <==> completed(ts) && n > 0 && !txrts_set(reg_value(ts.last())))
                &&& (r == Err::<(), EthControllerError>(EthControllerError::Timeout) <==> completed(ts)
                    && n == POLL_LIMIT && txrts_set(reg_value(ts.last())))
                &&& !(r matches Err(EthControllerError::GeneralError))
                &&& !(r matches Err(EthControllerError::NoRxPacketError))
            }),
            r is Ok ==> final(self).controller().tx_view() == (TxBufferView {
                next_addr: tx_advance(
                    old(self).controller().tx_view().next_addr as int,
                    len as int,
                ) as u16,
                ..old(self).controller().tx_view()
            }),
            r is Err ==> final(self).controller().tx_view() == old(self).controller().tx_view(),
    {
        // Stage the frame and send it.
        let mut tx_packet = TxPacket::new();
        tx_packet.update_frame(&self.tx_packet_buf, len);
        proof {
            assert(tx_packet@.frame.take(len as int) =~= self.tx_packet_buf@.take(len as int));
        }
        self.eth_controller.send_raw_packet(&tx_packet)
    }
}

} // verus!
