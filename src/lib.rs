//! Driver for the ENC424J600 10/100 Ethernet controller on an SPI bus.
//!
//! The host supplies the bus through the `SpiTransfer`, `ChipSelect` and
//! `DelayUs` traits; the driver is verified for every implementation of them.
//! Its contracts speak of the transactions it made on the bus, in order,
//! with the bytes sent and received (see `spi`).
use vstd::prelude::*;

pub mod rx;
pub mod smoltcp_phy;
pub mod spi;
pub mod tx;

use crate::rx::{
    lemma_rx_packet_lens, rsv_frame_length,
    RxBuffer, RxBufferView, RxPacket, ERXST_DEFAULT, ERXTAIL_DEFAULT, RX_MAX_ADDRESS, RSV_LENGTH,
};
use crate::spi::{
    completed, framed, hi_byte, lo_byte, performed, read16_frames, read_frame,
    reg16_value, reg_value, replies_fit, rxdat_frame, since, transactions_of, txdat_frame,
    window_data, write16_frames, write_frame, BusEvent, ChipSelect, SpiPort, SpiPortError,
    SpiTransfer, Transaction, ECON1, ECON2, EGPWRPT, EIR, ERXFCON, ERXRDPT, ERXST, ERXTAIL,
    ESTAT, ETXLEN, ETXST, EUDAST, MAADR1, MAADR2, MAADR3, MAMXFL,
};
use crate::spi::{aborted, extends, lemma_chain, lemma_since_concat, lemma_stopped, ran};
use crate::tx::{
    lemma_tx_frame_len, tx_advance, TxBuffer, TxBufferView, TxPacket, GPBUFEN_DEFAULT,
    GPBUFST_DEFAULT,
};

verus! {

/// Largest frame, in bytes, that the controller is set up to accept or send.
pub const RAW_FRAME_LENGTH_MAX: usize = 0x1000;

/// How many times a status bit is read before a wait gives up.
pub const POLL_LIMIT: u32 = 100_000;

/// Blocking delay of the host, in microseconds.
pub trait DelayUs {
    fn delay_us(&mut self, us: u16);
}

/// What the controller's operations report.
#[derive(Debug, Clone, Copy, PartialEq, Eq, Structural)]
pub enum EthControllerError {
    /// The SPI transceiver failed a transfer.
    SpiPortError,
    /// The device failed a sanity check, or reported an impossible frame.
    GeneralError,
    /// No packet is waiting (a receive that does not wait).
    NoRxPacketError,
    /// A status bit did not reach the awaited state within `POLL_LIMIT` reads.
    Timeout,
}

impl From<SpiPortError> for EthControllerError {
    fn from(_e: SpiPortError) -> (r: EthControllerError)
        ensures
            r == EthControllerError::SpiPortError,
    {
        EthControllerError::SpiPortError
    }
}

impl vstd::std_specs::convert::FromSpecImpl<SpiPortError> for EthControllerError {
    open spec fn obeys_from_spec() -> bool {
        true
    }

    open spec fn from_spec(v: SpiPortError) -> EthControllerError {
        EthControllerError::SpiPortError
    }
}

/// The frames of `init_rxbuf`, given the pointers it sets and the value of
/// ECON1 that it reads.
pub open spec fn init_rxbuf_script(wrap: u16, tail: u16, econ1: u16) -> Seq<Seq<u8>> {
    write16_frames(ERXST, wrap) + write16_frames(ERXTAIL, tail) + write16_frames(
        MAMXFL,
        RAW_FRAME_LENGTH_MAX as u16,
    ) + read16_frames(ECON1) + write16_frames(ECON1, 0x1 | (econ1 & 0xfffe))
}

/// The filter bits that promiscuous mode sets (CRCEN, RUNTEN, UCEN,
/// NOTMEEN, MCEN), keeping the other bits of ERXFCON's low byte.
pub open spec fn promiscuous_filter(erxfcon_lo: u8) -> u8 {
    (erxfcon_lo & 0b1010_0001) | 0b0101_1110
}

/// The registers that hold the MAC address, in the order of its octets.
pub open spec fn mac_script() -> Seq<Seq<u8>> {
    seq![
        read_frame(MAADR1),
        read_frame((MAADR1 + 1) as u8),
        read_frame(MAADR2),
        read_frame((MAADR2 + 1) as u8),
        read_frame(MAADR3),
        read_frame((MAADR3 + 1) as u8),
    ]
}

/// `n` reads of the same register, as a wait loop makes them.
pub open spec fn polls(frame: Seq<u8>, n: int) -> Seq<Seq<u8>> {
    Seq::new(if n > 0 { n as nat } else { 0 }, |i: int| frame)
}

/// The frames of `send_raw_packet` up to its wait for TXRTS to clear: the
/// write pointer, the frame's bytes, start and length, then TXRTS set in
/// ECON1 (whose low byte read `econ1`).
pub open spec fn send_script(next: u16, frame: Seq<u8>, econ1: u8) -> Seq<Seq<u8>> {
    write16_frames(EGPWRPT, next) + seq![txdat_frame(frame)] + write16_frames(ETXST, next)
        + write16_frames(ETXLEN, frame.len() as u16) + seq![
        read_frame(ECON1),
        write_frame(ECON1, 0x02 | (econ1 & 0xfd)),
    ]
}

/// The frames of a whole run of `send_raw_packet` that made the
/// transactions `ts`: the setup, then as many reads of ECON1 as followed it.
pub open spec fn send_run_script(next: u16, frame: Seq<u8>, ts: Seq<Transaction>) -> Seq<Seq<u8>> {
    send_script(next, frame, reg_value(ts[7])) + polls(read_frame(ECON1), ts.len() - send_setup_len())
}

/// Number of transactions in `send_script`.
pub open spec fn send_setup_len() -> int {
    9
}

/// Bit 1 of ECON1's low byte (TXRTS) is still set.
pub open spec fn txrts_set(v: u8) -> bool {
    v & 0x02 != 0
}

/// All the bits of `mask` are set in `v`.
pub open spec fn bits_set(v: u16, mask: u16) -> bool {
    v & mask == mask
}

/// The `i`-th pair of transactions reads the 16-bit register at `lo_addr`.
pub open spec fn read_pair(ts: Seq<Transaction>, lo_addr: u8, i: int) -> bool {
    &&& ts[2 * i].sent == read_frame(lo_addr)
    &&& ts[2 * i + 1].sent == read_frame((lo_addr + 1) as u8)
}

/// The value that the `i`-th pair read.
pub open spec fn pair_value(ts: Seq<Transaction>, i: int) -> u16 {
    reg16_value(ts, 2 * i)
}

/// `ts` begins with `k` reads of the 16-bit register at `lo_addr`; the bits
/// of `mask` were not all set in any but the last, and were all set in the
/// last exactly when `found`.
pub open spec fn bit_polls(ts: Seq<Transaction>, lo_addr: u8, mask: u16, k: int, found: bool) -> bool {
    &&& k >= 1
    &&& 2 * k <= ts.len()
    &&& forall|i: int| 0 <= i < k ==> #[trigger] read_pair(ts, lo_addr, i)
    &&& forall|i: int| 0 <= i < k - 1 ==> !bits_set(#[trigger] pair_value(ts, i), mask)
    &&& bits_set(pair_value(ts, k - 1), mask) == found
}

/// `ts` begins with `k` reads of EIR, PKTIF set in the last exactly when
/// `found` and clear in the others.
pub open spec fn eir_polls(ts: Seq<Transaction>, k: int, found: bool) -> bool {
    bit_polls(ts, EIR, 0x40, k, found)
}

/// One more read, with the bits clear in all the earlier ones.
pub proof fn lemma_polls_extend(
    a: Seq<Transaction>,
    b: Seq<Transaction>,
    lo_addr: u8,
    mask: u16,
    k: int,
)
    requires
        a.len() == 2 * k,
        k >= 0,
        k >= 1 ==> bit_polls(a, lo_addr, mask, k, false),
        b.len() >= 2,
        read_pair(a + b, lo_addr, k),
    ensures
        bit_polls(a + b, lo_addr, mask, k + 1, bits_set(pair_value(a + b, k), mask)),
{
    let ab = a + b;
    assert forall|i: int| 0 <= i < k implies #[trigger] read_pair(ab, lo_addr, i) && pair_value(
        ab,
        i,
    ) == pair_value(a, i) by {
        assert(read_pair(a, lo_addr, i));
        assert(ab[2 * i] == a[2 * i]);
        assert(ab[2 * i + 1] == a[2 * i + 1]);
    }
    assert forall|i: int| 0 <= i < k + 1 implies #[trigger] read_pair(ab, lo_addr, i) by {
        if i < k {
            assert(read_pair(ab, lo_addr, i) && pair_value(ab, i) == pair_value(a, i));
        }
    }
    assert forall|i: int| 0 <= i < k implies !bits_set(#[trigger] pair_value(ab, i), mask) by {
        assert(read_pair(ab, lo_addr, i) && pair_value(ab, i) == pair_value(a, i));
        if i < k - 1 {
            assert(!bits_set(pair_value(a, i), mask));
        }
    }
}

/// What came after the reads leaves them as they were.
pub proof fn lemma_polls_prefix(
    a: Seq<Transaction>,
    b: Seq<Transaction>,
    lo_addr: u8,
    mask: u16,
    k: int,
    found: bool,
)
    requires
        a.len() == 2 * k,
        bit_polls(a, lo_addr, mask, k, found),
    ensures
        bit_polls(a + b, lo_addr, mask, k, found),
{
    let ab = a + b;
    assert forall|i: int| 0 <= i < k implies #[trigger] read_pair(ab, lo_addr, i) && pair_value(
        ab,
        i,
    ) == pair_value(a, i) by {
        assert(read_pair(a, lo_addr, i));
        assert(ab[2 * i] == a[2 * i]);
        assert(ab[2 * i + 1] == a[2 * i + 1]);
    }
    assert forall|i: int| 0 <= i < k - 1 implies !bits_set(#[trigger] pair_value(ab, i), mask) by {
        assert(read_pair(ab, lo_addr, i) && pair_value(ab, i) == pair_value(a, i));
    }
    assert(read_pair(ab, lo_addr, k - 1) && pair_value(ab, k - 1) == pair_value(a, k - 1));
}

/// The RX tail that releases the ring up to a packet ending at `next`: two
/// bytes before it, or the last even address of SRAM where `next` is the
/// start of the ring.
pub open spec fn rx_tail_for(next: u16) -> u16 {
    if next > ERXST_DEFAULT {
        (next - 2) as u16
    } else {
        (RX_MAX_ADDRESS - 1) as u16
    }
}

/// The frames of one receive after PKTIF was seen: the read pointer, the
/// next-packet pointer, the status vector, the frame, the new tail, and
/// PKTDEC set in ECON1's high byte (which read `econ1_hi`).
pub open spec fn receive_script(rdpt: u16, frame_length: nat, next: u16, econ1_hi: u8) -> Seq<
    Seq<u8>,
> {
    write16_frames(ERXRDPT, rdpt) + seq![
        rxdat_frame(2),
        rxdat_frame(RSV_LENGTH as nat),
        rxdat_frame(frame_length),
    ] + write16_frames(ERXTAIL, rx_tail_for(next)) + seq![
        read_frame((ECON1 + 1) as u8),
        write_frame((ECON1 + 1) as u8, 0x01 | (econ1_hi & 0xfe)),
    ]
}

/// The next-packet pointer that the RX window gave, little-endian.
pub open spec fn next_of(t: Transaction) -> u16 {
    crate::spi::le16(window_data(t)[0], window_data(t)[1])
}

/// Number of transactions in `receive_script`.
pub open spec fn receive_len() -> int {
    9
}

/// `n` zero bytes.
fn zeros(n: usize) -> (r: Vec<u8>)
    ensures
        r@ == Seq::new(n as nat, |i: int| 0u8),
{
    let mut r: Vec<u8> = Vec::with_capacity(n);
    while r.len() < n
        invariant
            r@.len() <= n,
            r@ == Seq::new(r@.len(), |i: int| 0u8),
        decreases n - r@.len(),
    {
        r.push(0);
        proof {
            assert(r@ =~= Seq::new(r@.len(), |i: int| 0u8));
        }
    }
    r
}

/// A copy of `buf[from..from + n]`.
fn copy_range(buf: &Vec<u8>, from: usize, n: usize) -> (r: Vec<u8>)
    requires
        from + n <= buf@.len(),
    ensures
        r@ == buf@.subrange(from as int, from + n),
{
    let blen = buf.len();
    let mut r: Vec<u8> = Vec::with_capacity(n);
    let mut i: usize = 0;
    while i < n
        invariant
            0 <= i <= n,
            blen == buf@.len(),
            from + n <= buf@.len(),
            r@ == buf@.subrange(from as int, from + i),
        decreases n - i,
    {
        r.push(buf[from + i]);
        i += 1;
        proof {
            assert(r@ =~= buf@.subrange(from as int, from + i));
        }
    }
    r
}

/// The sanity check that starts `init_dev`: 0x1234 written to EUDAST and
/// read back.
pub open spec fn init_check_script() -> Seq<Seq<u8>> {
    write16_frames(EUDAST, 0x1234) + read16_frames(EUDAST)
}

/// The reset that ends `init_dev`: ETHRST set in ECON2 (whose low byte read
/// `econ2`), keeping its other bits, then EUDAST read back.
pub open spec fn reset_script(econ2: u8) -> Seq<Seq<u8>> {
    seq![read_frame(ECON2), write_frame(ECON2, 0x10 | (econ2 & 0b1110_1111))] + read16_frames(
        EUDAST,
    )
}

/// A run of `init_dev` that went through to the final read of EUDAST: the
/// check (which read 0x1234 back), the reads of ESTAT until CLKRDY was set,
/// and the reset.
pub open spec fn init_dev_ran(ts: Seq<Transaction>) -> bool {
    &&& ts.len() >= 10
    &&& ts.len() % 2 == 0
    &&& ran(ts.take(4), init_check_script())
    &&& reg16_value(ts, 2) == 0x1234
    &&& bit_polls(ts.skip(4), ESTAT, 0x1000, (ts.len() - 8) / 2, true)
    &&& ran(ts.skip(ts.len() - 4), reset_script(reg_value(ts[ts.len() - 4])))
}

/// The byte that the last frame of `frames` writing register `addr` wrote,
/// if one did.
pub open spec fn last_written(frames: Seq<Seq<u8>>, addr: u8) -> Option<u8>
    decreases frames.len(),
{
    if frames.len() == 0 {
        None
    } else {
        let f = frames.last();
        if f.len() == 3 && f[0] == crate::spi::WCRU && f[1] == addr {
            Some(f[2])
        } else {
            last_written(frames.drop_last(), addr)
        }
    }
}

/// The value that `frames` left in the 16-bit register at `lo_addr`, where
/// they wrote both of its bytes.
pub open spec fn written16(frames: Seq<Seq<u8>>, lo_addr: u8) -> Option<u16> {
    match (last_written(frames, lo_addr), last_written(frames, (lo_addr + 1) as u8)) {
        (Some(lo), Some(hi)) => Some(crate::spi::le16(lo, hi)),
        _ => None,
    }
}

/// After `init_rxbuf` on a ring in its initial state, whatever ECON1 held:
/// ERXST holds 0x5340, ERXTAIL 0x5FFE, MAMXFL 0x1000, and RXEN (ECON1<0>)
/// is set.
pub proof fn lemma_init_rxbuf_registers(econ1: u16)
    ensures
        written16(init_rxbuf_script(ERXST_DEFAULT, ERXTAIL_DEFAULT, econ1), ERXST) == Some(
            0x5340u16,
        ),
        written16(init_rxbuf_script(ERXST_DEFAULT, ERXTAIL_DEFAULT, econ1), ERXTAIL) == Some(
            0x5ffeu16,
        ),
        written16(init_rxbuf_script(ERXST_DEFAULT, ERXTAIL_DEFAULT, econ1), MAMXFL) == Some(
            0x1000u16,
        ),
        written16(init_rxbuf_script(ERXST_DEFAULT, ERXTAIL_DEFAULT, econ1), ECON1) matches Some(v)
            && v & 1 == 1,
{
    let s = init_rxbuf_script(ERXST_DEFAULT, ERXTAIL_DEFAULT, econ1);
    let v = 0x1 | (econ1 & 0xfffe);
    assert(s =~= seq![
        write_frame(0x04, lo_byte(0x5340)),
        write_frame(0x05, hi_byte(0x5340)),
        write_frame(0x06, lo_byte(0x5ffe)),
        write_frame(0x07, hi_byte(0x5ffe)),
        write_frame(0x4a, lo_byte(0x1000)),
        write_frame(0x4b, hi_byte(0x1000)),
        read_frame(0x1e),
        read_frame(0x1f),
        write_frame(0x1e, lo_byte(v)),
        write_frame(0x1f, hi_byte(v)),
    ]);
    reveal_with_fuel(last_written, 11);
    assert(lo_byte(0x5340) == 0x40) by (bit_vector);
    assert(hi_byte(0x5340) == 0x53) by (bit_vector);
    assert(lo_byte(0x5ffe) == 0xfe) by (bit_vector);
    assert(hi_byte(0x5ffe) == 0x5f) by (bit_vector);
    assert(lo_byte(0x1000) == 0x00) by (bit_vector);
    assert(hi_byte(0x1000) == 0x10) by (bit_vector);
    assert(crate::spi::le16(0x40, 0x53) == 0x5340) by (bit_vector);
    assert(crate::spi::le16(0xfe, 0x5f) == 0x5ffe) by (bit_vector);
    assert(crate::spi::le16(0x00, 0x10) == 0x1000) by (bit_vector);
    assert(crate::spi::le16(lo_byte(0x1 | (econ1 & 0xfffe)), hi_byte(0x1 | (econ1 & 0xfffe))) & 1
        == 1) by (bit_vector);
}

/// A receive that read `next` as the next-packet pointer leaves in ERXTAIL
/// the address two bytes before it, or 0x5FFE where `next` is the start of
/// the ring.
pub proof fn lemma_receive_tail(rdpt: u16, frame_length: nat, next: u16, econ1_hi: u8)
    ensures
        written16(receive_script(rdpt, frame_length, next, econ1_hi), ERXTAIL) == Some(
            if next > ERXST_DEFAULT {
                (next - 2) as u16
            } else {
                0x5ffeu16
            },
        ),
{
    let s = receive_script(rdpt, frame_length, next, econ1_hi);
    let tail = rx_tail_for(next);
    assert(s =~= seq![
        write_frame(ERXRDPT, lo_byte(rdpt)),
        write_frame((ERXRDPT + 1) as u8, hi_byte(rdpt)),
        rxdat_frame(2),
        rxdat_frame(RSV_LENGTH as nat),
        rxdat_frame(frame_length),
        write_frame(0x06, lo_byte(tail)),
        write_frame(0x07, hi_byte(tail)),
        read_frame(0x1f),
        write_frame(0x1f, 0x01 | (econ1_hi & 0xfe)),
    ]);
    reveal_with_fuel(last_written, 5);
    assert(crate::spi::le16(lo_byte(tail), hi_byte(tail)) == tail) by (bit_vector);
}

/// One wait of the host's delay: its length in microseconds, and how many
/// transactions the controller had made on the bus before it.
pub struct DelayMark {
    pub us: u16,
    pub at: nat,
}

/// Ethernet controller on an SPI bus: owns the port and the state of the
/// controller's RX ring and TX staging area. It keeps a ghost record of the
/// delays it waited, placed among its transactions.
pub struct SpiEth<SPI: SpiTransfer, NSS: ChipSelect> {
    spi_port: SpiPort<SPI, NSS>,
    rx_buf: RxBuffer,
    tx_buf: TxBuffer,
    delays: Ghost<Seq<DelayMark>>,
}

impl<SPI: SpiTransfer, NSS: ChipSelect> SpiEth<SPI, NSS> {
    /// Everything the controller did on the bus since it was made.
    pub closed spec fn events(&self) -> Seq<BusEvent> {
        self.spi_port.events()
    }

    /// The transfers the controller made, in order.
    pub open spec fn transactions(&self) -> Seq<Transaction> {
        transactions_of(self.events())
    }

    pub open spec fn wf(&self) -> bool {
        &&& framed(self.events())
        &&& replies_fit(self.transactions())
    }

    pub closed spec fn rx_view(&self) -> RxBufferView {
        self.rx_buf@
    }

    pub closed spec fn tx_view(&self) -> TxBufferView {
        self.tx_buf@
    }

    /// The delays the controller waited, in order.
    pub closed spec fn delays(&self) -> Seq<DelayMark> {
        self.delays@
    }

    /// Waits `us` microseconds on the host's delay.
    fn wait_us<D: DelayUs>(&mut self, delay: &mut D, us: u16)
        ensures
            final(self).delays() == old(self).delays().push(
                DelayMark { us, at: old(self).transactions().len() },
            ),
            final(self).events() == old(self).events(),
            final(self).rx_view() == old(self).rx_view(),
            final(self).tx_view() == old(self).tx_view(),
    {
        delay.delay_us(us);
        let ghost mark = DelayMark { us, at: self.transactions().len() };
        self.delays = Ghost(self.delays@.push(mark));
    }

    /// Takes the bus, with the RX ring and TX area in their initial state.
    pub fn new(spi: SPI, nss: NSS) -> (r: Self)
        ensures
            r.wf(),
            r.delays().len() == 0,
            r.events() == seq![BusEvent::CsHigh],
            r.transactions().len() == 0,
            r.rx_view() == (RxBufferView {
                wrap_addr: ERXST_DEFAULT,
                next_addr: ERXST_DEFAULT,
                tail_addr: ERXTAIL_DEFAULT,
            }),
            r.tx_view() == (TxBufferView {
                wrap_addr: GPBUFST_DEFAULT,
                next_addr: (GPBUFST_DEFAULT + 1) as u16,
                tail_addr: GPBUFST_DEFAULT,
            }),
    {
        let ghost delays = Seq::<DelayMark>::empty();
        SpiEth {
            spi_port: SpiPort::new(spi, nss),
            rx_buf: RxBuffer::new(),
            tx_buf: TxBuffer::new(),
            delays: Ghost(delays),
        }
    }

    /// Points the general-purpose write pointer at the start of SRAM.
    pub fn init_txbuf(&mut self) -> (r: Result<(), EthControllerError>)
        requires
            old(self).wf(),
        ensures
            final(self).wf(),
            final(self).delays() == old(self).delays(),
            final(self).rx_view() == old(self).rx_view(),
            final(self).tx_view() == old(self).tx_view(),
            performed(
                old(self).transactions(),
                final(self).transactions(),
                write16_frames(EGPWRPT, 0x0000),
            ),
            r is Ok <==> completed(since(old(self).transactions(), final(self).transactions())),
            r matches Err(e) ==> e == EthControllerError::SpiPortError,
    {
        match self.spi_port.write_reg_16b(EGPWRPT, 0x0000) {
            Ok(()) => Ok(()),
            Err(_) => Err(EthControllerError::SpiPortError),
        }
    }

    /// Sets up the RX ring (start, tail, largest frame) and enables
    /// reception, keeping ECON1's other bits.
    pub fn init_rxbuf(&mut self) -> (r: Result<(), EthControllerError>)
        requires
            old(self).wf(),
        ensures
            final(self).wf(),
            final(self).delays() == old(self).delays(),
            final(self).rx_view() == old(self).rx_view(),
            final(self).tx_view() == old(self).tx_view(),
            performed(
                old(self).transactions(),
                final(self).transactions(),
                init_rxbuf_script(
                    old(self).rx_view().wrap_addr,
                    old(self).rx_view().tail_addr,
                    reg16_value(since(old(self).transactions(), final(self).transactions()), 6),
                ),
            ),
            r is Ok <==> completed(since(old(self).transactions(), final(self).transactions())),
            r matches Err(e) ==> e == EthControllerError::SpiPortError,
    {
        let ghost t0 = self.spi_port.transactions();
        let wrap = self.rx_buf.get_wrap_addr();
        let tail = self.rx_buf.get_tail_addr();
        let ghost s1 = write16_frames(ERXST, wrap);
        let ghost s2 = write16_frames(ERXTAIL, tail);
        let ghost s3 = write16_frames(MAMXFL, RAW_FRAME_LENGTH_MAX as u16);
        let ghost s4 = read16_frames(ECON1);
        // Set ERXST, then ERXTAIL.
        let r = self.spi_port.write_reg_16b(ERXST, wrap);
        let ghost t1 = self.spi_port.transactions();
        if r.is_err() {
            proof {
                let ts = since(t0, t1);
                lemma_stopped(ts, s1, init_rxbuf_script(wrap, tail, reg16_value(ts, 6)));
            }
            return Err(EthControllerError::SpiPortError);
        }
        let r = self.spi_port.write_reg_16b(ERXTAIL, tail);
        let ghost t2 = self.spi_port.transactions();
        proof {
            lemma_chain(t0, t1, t2, s1, s2);
        }
        if r.is_err() {
            proof {
                let ts = since(t0, t2);
                lemma_stopped(ts, s1 + s2, init_rxbuf_script(wrap, tail, reg16_value(ts, 6)));
            }
            return Err(EthControllerError::SpiPortError);
        }
        // The largest frame the MAC accepts.
        let r = self.spi_port.write_reg_16b(MAMXFL, RAW_FRAME_LENGTH_MAX as u16);
        let ghost t3 = self.spi_port.transactions();
        proof {
            lemma_chain(t0, t2, t3, s1 + s2, s3);
        }
        if r.is_err() {
            proof {
                let ts = since(t0, t3);
                lemma_stopped(ts, s1 + s2 + s3, init_rxbuf_script(wrap, tail, reg16_value(ts, 6)));
            }
            return Err(EthControllerError::SpiPortError);
        }
        // Enable RXEN (ECON1<0>).
        let econ1 = self.spi_port.read_reg_16b(ECON1);
        let ghost t4 = self.spi_port.transactions();
        proof {
            lemma_chain(t0, t3, t4, s1 + s2 + s3, s4);
        }
        let econ1 = match econ1 {
            Ok(v) => v,
            Err(_) => {
                proof {
                    let ts = since(t0, t4);
                    let full = init_rxbuf_script(wrap, tail, reg16_value(ts, 6));
                    lemma_stopped(ts, s1 + s2 + s3 + s4, full);
                }
                return Err(EthControllerError::SpiPortError);
            },
        };
        let r = self.spi_port.write_reg_16b(ECON1, 0x1 | (econ1 & 0xfffe));
        let ghost t5 = self.spi_port.transactions();
        proof {
            lemma_chain(t0, t4, t5, s1 + s2 + s3 + s4, write16_frames(ECON1, 0x1 | (econ1 & 0xfffe)));
            let ts = since(t0, t5);
            assert(ts[6] == since(t3, t4)[0]);
            assert(ts[7] == since(t3, t4)[1]);
        }
        match r {
            Ok(()) => Ok(()),
            Err(_) => Err(EthControllerError::SpiPortError),
        }
    }
    /// Accepts every incoming frame: sets CRCEN, RUNTEN, UCEN, NOTMEEN and
    /// MCEN in ERXFCON's low byte, keeping its other bits.
    pub fn set_promiscuous(&mut self) -> (r: Result<(), EthControllerError>)
        requires
            old(self).wf(),
        ensures
            final(self).wf(),
            final(self).delays() == old(self).delays(),
            final(self).rx_view() == old(self).rx_view(),
            final(self).tx_view() == old(self).tx_view(),
            performed(
                old(self).transactions(),
                final(self).transactions(),
                seq![
                    read_frame(ERXFCON),
                    write_frame(
                        ERXFCON,
                        promiscuous_filter(
                            reg_value(since(old(self).transactions(), final(self).transactions())[0]),
                        ),
                    ),
                ],
            ),
            r is Ok <==> completed(since(old(self).transactions(), final(self).transactions())),
            r matches Err(e) ==> e == EthControllerError::SpiPortError,
    {
        let ghost t0 = self.spi_port.transactions();
        let erxfcon_lo = self.spi_port.read_reg_8b(ERXFCON);
        let ghost t1 = self.spi_port.transactions();
        let erxfcon_lo = match erxfcon_lo {
            Ok(v) => v,
            Err(_) => {
                proof {
                    lemma_stopped(
                        since(t0, t1),
                        seq![read_frame(ERXFCON)],
                        seq![
                            read_frame(ERXFCON),
                            write_frame(ERXFCON, promiscuous_filter(reg_value(since(t0, t1)[0]))),
                        ],
                    );
                }
                return Err(EthControllerError::SpiPortError);
            },
        };
        let r = self.spi_port.write_reg_8b(ERXFCON, (erxfcon_lo & 0b1010_0001) | 0b0101_1110);
        let ghost t2 = self.spi_port.transactions();
        proof {
            lemma_chain(
                t0,
                t1,
                t2,
                seq![read_frame(ERXFCON)],
                seq![write_frame(ERXFCON, promiscuous_filter(erxfcon_lo))],
            );
            assert(since(t0, t2)[0] == since(t0, t1)[0]);
            assert(since(t0, t1)[0] == t1.last());
            assert(seq![read_frame(ERXFCON)] + seq![
                write_frame(ERXFCON, promiscuous_filter(erxfcon_lo)),
            ] =~= seq![read_frame(ERXFCON), write_frame(ERXFCON, promiscuous_filter(erxfcon_lo))]);
        }
        match r {
            Ok(()) => Ok(()),
            Err(_) => Err(EthControllerError::SpiPortError),
        }
    }

    /// Reads the MAC address into `mac[0..6]`, in the order of its octets:
    /// MAADR1 low and high, MAADR2 low and high, MAADR3 low and high.
    pub fn read_from_mac(&mut self, mac: &mut [u8]) -> (r: Result<(), EthControllerError>)
        requires
            old(self).wf(),
            old(mac)@.len() >= 6,
        ensures
            final(self).wf(),
            final(self).delays() == old(self).delays(),
            final(self).rx_view() == old(self).rx_view(),
            final(self).tx_view() == old(self).tx_view(),
            final(mac)@.len() == old(mac)@.len(),
            performed(old(self).transactions(), final(self).transactions(), mac_script()),
            r is Ok <==> completed(since(old(self).transactions(), final(self).transactions())),
            r is Ok ==> forall|i: int|
                0 <= i < 6 ==> final(mac)@[i] == reg_value(
                    #[trigger] since(old(self).transactions(), final(self).transactions())[i],
                ),
            r is Ok ==> final(mac)@.skip(6) == old(mac)@.skip(6),
            r matches Err(e) ==> e == EthControllerError::SpiPortError,
    {
        let ghost t0 = self.spi_port.transactions();
        let ghost mac0 = mac@;
        let addrs: [u8; 6] = [MAADR1, MAADR1 + 1, MAADR2, MAADR2 + 1, MAADR3, MAADR3 + 1];
        let mut i: usize = 0;
        proof {
            assert(since(t0, t0) =~= Seq::<Transaction>::empty());
            assert(t0.subrange(0, t0.len() as int) =~= t0);
        }
        while i < 6
            invariant
                0 <= i <= 6,
                forall|j: int| 0 <= j < 6 ==> mac_script()[j] == read_frame(#[trigger] addrs@[j]),
                self.wf(),
                self.delays() == old(self).delays(),
                self.rx_view() == old(self).rx_view(),
                self.tx_view() == old(self).tx_view(),
                t0 == old(self).transactions(),
                performed(t0, self.spi_port.transactions(), mac_script().take(i as int)),
                completed(since(t0, self.spi_port.transactions())),
                mac@.len() == mac0.len(),
                mac0.len() >= 6,
                mac0 == old(mac)@,
                forall|j: int| 0 <= j < i ==> mac@[j] == reg_value(
                    #[trigger] since(t0, self.spi_port.transactions())[j],
                ),
                forall|j: int| 6 <= j < mac0.len() ==> mac@[j] == mac0[j],
            decreases 6 - i,
        {
            let ghost t1 = self.spi_port.transactions();
            let v = self.spi_port.read_reg_8b(addrs[i]);
            let ghost t2 = self.spi_port.transactions();
            proof {
                lemma_chain(t0, t1, t2, mac_script().take(i as int), seq![read_frame(addrs[i as int])]);
                assert(mac_script().take(i as int) + seq![read_frame(addrs[i as int])]
                    =~= mac_script().take(i + 1));
                assert forall|j: int| 0 <= j < i implies since(t0, t2)[j] == since(t0, t1)[j] by {}
            }
            match v {
                Ok(b) => {
                    proof {
                        assert(since(t0, t2)[i as int] == since(t1, t2)[0]);
                        assert(since(t1, t2)[0] == t2.last());
                    }
                    mac[i] = b;
                },
                Err(_) => {
                    proof {
                        lemma_stopped(since(t0, t2), mac_script().take(i + 1), mac_script());
                    }
                    return Err(EthControllerError::SpiPortError);
                },
            }
            i += 1;
        }
        proof {
            assert(mac_script().take(6) =~= mac_script());
            assert(mac@.skip(6) =~= mac0.skip(6));
        }
        Ok(())
    }
    /// Sends `packet`: stages its frame at the TX cursor, starts the
    /// transmission and waits, for at most `POLL_LIMIT` reads, until the
    /// controller clears TXRTS; then advances the cursor past the frame.
    pub fn send_raw_packet(&mut self, packet: &TxPacket) -> (r: Result<(), EthControllerError>)
        requires
            old(self).wf(),
        ensures
            final(self).wf(),
            final(self).delays() == old(self).delays(),
            final(self).rx_view() == old(self).rx_view(),
            ({
                let ts = since(old(self).transactions(), final(self).transactions());
                let frame = packet@.frame.take(packet@.frame_length as int);
                let n = ts.len() - send_setup_len();
                &&& performed(
                    old(self).transactions(),
                    final(self).transactions(),
                    send_run_script(old(self).tx_view().next_addr, frame, ts),
                )
                &&& (r == Err::<(), EthControllerError>(EthControllerError::SpiPortError)
                    <==> !completed(ts))
                &&& (r is Ok <==> completed(ts) && n > 0 && !txrts_set(reg_value(ts.last())))
                &&& (r == Err::<(), EthControllerError>(EthControllerError::Timeout) <==> completed(ts)
                    && n == POLL_LIMIT && txrts_set(reg_value(ts.last())))
                &&& !(r matches Err(EthControllerError::GeneralError))
                &&& !(r matches Err(EthControllerError::NoRxPacketError))
                &&& completed(ts) ==> n <= POLL_LIMIT && forall|i: int|
                    send_setup_len() <= i < ts.len() - 1 ==> txrts_set(reg_value(#[trigger] ts[i]))
            }),
            r is Ok ==> final(self).tx_view() == (TxBufferView {
                next_addr: tx_advance(
                    old(self).tx_view().next_addr as int,
                    packet@.frame_length as int,
                ) as u16,
                ..old(self).tx_view()
            }),
            r is Err ==> final(self).tx_view() == old(self).tx_view(),
    {
        let ghost t0 = self.spi_port.transactions();
        let next = self.tx_buf.get_next_addr();
        let len = packet.get_frame_length();
        let ghost frame = packet@.frame.take(len as int);
        proof {
            use_type_invariant(packet);
            lemma_tx_frame_len(packet);
        }
        let ghost s1 = write16_frames(EGPWRPT, next);
        let ghost s2 = seq![txdat_frame(frame)];
        let ghost s3 = write16_frames(ETXST, next);
        let ghost s4 = write16_frames(ETXLEN, len as u16);
        // Set EGPWRPT to the TX cursor.
        let r = self.spi_port.write_reg_16b(EGPWRPT, next);
        let ghost t1 = self.spi_port.transactions();
        if r.is_err() {
            proof {
                let ts = since(t0, t1);
                lemma_stopped(ts, s1, send_run_script(next, frame, ts));
            }
            return Err(EthControllerError::SpiPortError);
        }
        // Copy the frame to SRAM; the first byte is the opcode's slot.
        let mut txdat_buf: Vec<u8> = Vec::with_capacity(len + 1);
        txdat_buf.push(0);
        let mut i: usize = 0;
        while i < len
            invariant
                0 <= i <= len,
                len == packet@.frame_length,
                len <= RAW_FRAME_LENGTH_MAX,
                frame == packet@.frame.take(len as int),
                packet@.frame.len() == RAW_FRAME_LENGTH_MAX,
                txdat_buf@ == seq![0u8] + frame.take(i as int),
            decreases len - i,
        {
            txdat_buf.push(packet.get_frame_byte(i));
            i += 1;
            proof {
                assert(txdat_buf@ =~= seq![0u8] + frame.take(i as int));
            }
        }
        proof {
            assert(txdat_buf@.subrange(1, len + 1) =~= frame);
        }
        let r = self.spi_port.write_txdat(txdat_buf.as_mut_slice(), len);
        let ghost t2 = self.spi_port.transactions();
        proof {
            lemma_chain(t0, t1, t2, s1, s2);
        }
        if r.is_err() {
            proof {
                let ts = since(t0, t2);
                lemma_stopped(ts, s1 + s2, send_run_script(next, frame, ts));
            }
            return Err(EthControllerError::SpiPortError);
        }
        // Start address and length of the frame.
        let r = self.spi_port.write_reg_16b(ETXST, next);
        let ghost t3 = self.spi_port.transactions();
        proof {
            lemma_chain(t0, t2, t3, s1 + s2, s3);
        }
        if r.is_err() {
            proof {
                let ts = since(t0, t3);
                lemma_stopped(ts, s1 + s2 + s3, send_run_script(next, frame, ts));
            }
            return Err(EthControllerError::SpiPortError);
        }
        let r = self.spi_port.write_reg_16b(ETXLEN, len as u16);
        let ghost t4 = self.spi_port.transactions();
        proof {
            lemma_chain(t0, t3, t4, s1 + s2 + s3, s4);
        }
        if r.is_err() {
            proof {
                let ts = since(t0, t4);
                lemma_stopped(ts, s1 + s2 + s3 + s4, send_run_script(next, frame, ts));
            }
            return Err(EthControllerError::SpiPortError);
        }
        // Set TXRTS (ECON1<1>) to start the transmission.
        let econ1_lo = self.spi_port.read_reg_8b(ECON1);
        let ghost t5 = self.spi_port.transactions();
        proof {
            lemma_chain(t0, t4, t5, s1 + s2 + s3 + s4, seq![read_frame(ECON1)]);
        }
        let econ1_lo = match econ1_lo {
            Ok(v) => v,
            Err(_) => {
                proof {
                    let ts = since(t0, t5);
                    let done = s1 + s2 + s3 + s4 + seq![read_frame(ECON1)];
                    lemma_stopped(ts, done, send_run_script(next, frame, ts));
                }
                return Err(EthControllerError::SpiPortError);
            },
        };
        proof {
            assert(since(t0, t5)[7] == since(t4, t5)[0]);
            assert(since(t4, t5)[0] == t5.last());
        }
        let r = self.spi_port.write_reg_8b(ECON1, 0x02 | (econ1_lo & 0xfd));
        let ghost t6 = self.spi_port.transactions();
        proof {
            let done = s1 + s2 + s3 + s4 + seq![read_frame(ECON1)];
            let txrts = seq![write_frame(ECON1, 0x02 | (econ1_lo & 0xfd))];
            lemma_chain(t0, t5, t6, done, txrts);
            assert(since(t0, t6)[7] == since(t0, t5)[7]);
            assert(done + txrts =~= send_script(next, frame, econ1_lo));
            let setup = send_script(next, frame, econ1_lo);
            assert(setup + polls(read_frame(ECON1), 0) =~= setup);
        }
        if r.is_err() {
            return Err(EthControllerError::SpiPortError);
        }
        // Wait until the controller clears TXRTS.
        let mut k: u32 = 0;
        while k < POLL_LIMIT
            invariant
                0 <= k <= POLL_LIMIT,
                self.wf(),
                self.delays() == old(self).delays(),
                self.rx_view() == old(self).rx_view(),
                self.tx_view() == old(self).tx_view(),
                t0 == old(self).transactions(),
                next == old(self).tx_view().next_addr,
                len == packet@.frame_length,
                len <= RAW_FRAME_LENGTH_MAX,
                frame == packet@.frame.take(len as int),
                performed(
                    t0,
                    self.spi_port.transactions(),
                    send_script(next, frame, econ1_lo) + polls(read_frame(ECON1), k as int),
                ),
                completed(since(t0, self.spi_port.transactions())),
                since(t0, self.spi_port.transactions()).len() == 9 + k,
                reg_value(since(t0, self.spi_port.transactions())[7]) == econ1_lo,
                forall|i: int|
                    9 <= i < 9 + k ==> txrts_set(
                        reg_value(#[trigger] since(t0, self.spi_port.transactions())[i]),
                    ),
            decreases POLL_LIMIT - k,
        {
            let ghost tk = self.spi_port.transactions();
            let econ1_lo_now = self.spi_port.read_reg_8b(ECON1);
            let ghost tn = self.spi_port.transactions();
            proof {
                let setup = send_script(next, frame, econ1_lo);
                let polled = setup + polls(read_frame(ECON1), k as int);
                lemma_chain(t0, tk, tn, polled, seq![read_frame(ECON1)]);
                assert(polled + seq![read_frame(ECON1)] =~= setup + polls(read_frame(ECON1), k + 1));
                assert(since(t0, tn)[7] == since(t0, tk)[7]);
                assert forall|i: int| 9 <= i < 9 + k implies since(t0, tn)[i] == since(t0, tk)[i] by {}
                assert(since(t0, tn).last() == since(tk, tn)[0]);
                assert(since(tk, tn)[0] == tn.last());
            }
            match econ1_lo_now {
                Ok(v) => {
                    if v & 0x02 == 0 {
                        // Advance the TX cursor past the frame.
                        let advanced = ((next as u32 + len as u32) % (GPBUFEN_DEFAULT as u32)) as u16;
                        self.tx_buf.set_next_addr(advanced);
                        return Ok(());
                    }
                },
                Err(_) => {
                    return Err(EthControllerError::SpiPortError);
                },
            }
            k += 1;
        }
        Err(EthControllerError::Timeout)
    }
    /// Reads the 16-bit register at `lo_addr` until the bits of `mask` are
    /// all set: once where `is_poll` is false (`NoRxPacketError` if they are
    /// not), up to `POLL_LIMIT` times otherwise (`Timeout`).
    fn wait_bits16(&mut self, lo_addr: u8, mask: u16, is_poll: bool) -> (r: Result<
        (),
        EthControllerError,
    >)
        requires
            old(self).wf(),
            lo_addr < 0xff,
        ensures
            final(self).wf(),
            final(self).delays() == old(self).delays(),
            final(self).rx_view() == old(self).rx_view(),
            final(self).tx_view() == old(self).tx_view(),
            extends(old(self).transactions(), final(self).transactions()),
            ({
                let ts = since(old(self).transactions(), final(self).transactions());
                &&& (r is Ok ==> completed(ts) && ts.len() % 2 == 0 && bit_polls(
                    ts,
                    lo_addr,
                    mask,
                    (ts.len() / 2) as int,
                    true,
                ))
                &&& (r is Ok && !is_poll ==> ts.len() == 2)
                &&& (r matches Err(EthControllerError::SpiPortError) <==> aborted(ts))
                &&& (r matches Err(EthControllerError::NoRxPacketError) <==> !is_poll && completed(
                    ts,
                ) && ts.len() == 2 && bit_polls(ts, lo_addr, mask, 1, false))
                &&& (r matches Err(EthControllerError::Timeout) <==> is_poll && completed(ts)
                    && ts.len() == 2 * POLL_LIMIT && bit_polls(
                    ts,
                    lo_addr,
                    mask,
                    POLL_LIMIT as int,
                    false,
                ))
                &&& !(r matches Err(EthControllerError::GeneralError))
            }),
    {
        let ghost t0 = self.spi_port.transactions();
        proof {
            assert(since(t0, t0) =~= Seq::<Transaction>::empty());
            assert(t0.subrange(0, t0.len() as int) =~= t0);
        }
        let mut k: u32 = 0;
        while k < POLL_LIMIT
            invariant
                0 <= k <= POLL_LIMIT,
                self.wf(),
                self.delays() == old(self).delays(),
                self.rx_view() == old(self).rx_view(),
                self.tx_view() == old(self).tx_view(),
                t0 == old(self).transactions(),
                extends(t0, self.spi_port.transactions()),
                completed(since(t0, self.spi_port.transactions())),
                since(t0, self.spi_port.transactions()).len() == 2 * k,
                lo_addr < 0xff,
                !is_poll ==> k == 0,
                k >= 1 ==> bit_polls(
                    since(t0, self.spi_port.transactions()),
                    lo_addr,
                    mask,
                    k as int,
                    false,
                ),
            decreases POLL_LIMIT - k,
        {
            let ghost tk = self.spi_port.transactions();
            let eir = self.spi_port.read_reg_16b(lo_addr);
            let ghost tn = self.spi_port.transactions();
            proof {
                lemma_since_concat(t0, tk, tn);
                let a = since(t0, tk);
                let b = since(tk, tn);
                let ab = since(t0, tn);
                if completed(b) {
                    assert(b.len() == 2);
                    assert(b[0].sent == read_frame(lo_addr));
                    assert(b[1].sent == read_frame((lo_addr + 1) as u8));
                    assert(ab[2 * k] == b[0]);
                    assert(ab[2 * k + 1] == b[1]);
                    assert(read_pair(ab, lo_addr, k as int));
                    assert(pair_value(ab, k as int) == reg16_value(b, 0));
                    lemma_polls_extend(a, b, lo_addr, mask, k as int);
                }
            }
            match eir {
                Ok(v) => {
                    if v & mask == mask {
                        return Ok(());
                    } else if !is_poll {
                        return Err(EthControllerError::NoRxPacketError);
                    }
                },
                Err(_) => {
                    return Err(EthControllerError::SpiPortError);
                },
            }
            k += 1;
        }
        Err(EthControllerError::Timeout)
    }

    /// Reads one packet from the RX window, once PKTIF was seen: the
    /// next-packet pointer, the status vector and the frame; then releases
    /// the ring and decrements the packet count.
    fn read_packet(&mut self) -> (r: Result<RxPacket, EthControllerError>)
        requires
            old(self).wf(),
        ensures
            final(self).wf(),
            final(self).delays() == old(self).delays(),
            final(self).tx_view() == old(self).tx_view(),
            extends(old(self).transactions(), final(self).transactions()),
            ({
                let u = since(old(self).transactions(), final(self).transactions());
                &&& (r matches Err(EthControllerError::SpiPortError) <==> aborted(u))
                &&& (r is Ok || r matches Err(EthControllerError::GeneralError) || r matches Err(
                    EthControllerError::SpiPortError,
                ))
            }),
            r matches Ok(p) ==> ({
                let u = since(old(self).transactions(), final(self).transactions());
                &&& completed(u)
                &&& u.len() == receive_len()
                &&& ran(
                    u,
                    receive_script(
                        old(self).rx_view().next_addr,
                        p@.frame_length,
                        next_of(u[2]),
                        reg_value(u[7]),
                    ),
                )
                &&& p@.rsv == window_data(u[3])
                &&& p@.frame_length == rsv_frame_length(p@.rsv)
                &&& p@.frame_length <= RAW_FRAME_LENGTH_MAX
                &&& p@.frame.take(p@.frame_length as int) == window_data(u[4])
                &&& final(self).rx_view() == (RxBufferView {
                    next_addr: next_of(u[2]),
                    ..old(self).rx_view()
                })
            }),
            r matches Err(EthControllerError::GeneralError) ==> ({
                let u = since(old(self).transactions(), final(self).transactions());
                &&& completed(u)
                &&& u.len() == 4
                &&& ran(u, receive_script(old(self).rx_view().next_addr, 0, 0, 0).take(4))
                &&& rsv_frame_length(window_data(u[3])) > RAW_FRAME_LENGTH_MAX
                &&& final(self).rx_view() == (RxBufferView {
                    next_addr: next_of(u[2]),
                    ..old(self).rx_view()
                })
            }),
    {
        let ghost tp = self.spi_port.transactions();
        let ghost next0 = self.rx_view().next_addr;
        let ghost s1 = write16_frames(ERXRDPT, next0);
        let ghost s2 = seq![rxdat_frame(2)];
        let ghost s3 = seq![rxdat_frame(RSV_LENGTH as nat)];
        // Point ERXRDPT at the packet.
        let r = self.spi_port.write_reg_16b(ERXRDPT, self.rx_buf.get_next_addr());
        let ghost t1 = self.spi_port.transactions();
        if r.is_err() {
            return Err(EthControllerError::SpiPortError);
        }
        // Two bytes: where the next packet will start.
        let mut next_addr_buf = zeros(3);
        let r = self.spi_port.read_rxdat(next_addr_buf.as_mut_slice(), 2);
        let ghost t2 = self.spi_port.transactions();
        proof {
            lemma_chain(tp, t1, t2, s1, s2);
        }
        if r.is_err() {
            return Err(EthControllerError::SpiPortError);
        }
        let new_next = ((next_addr_buf[2] as u16) << 8) | (next_addr_buf[1] as u16);
        proof {
            assert(since(tp, t2)[2] == t2.last());
            assert(window_data(t2.last()) == next_addr_buf@.subrange(1, 3));
        }
        self.rx_buf.set_next_addr(new_next);
        // Six bytes: the Receive Status Vector.
        let mut rsv_buf = zeros(RSV_LENGTH + 1);
        let r = self.spi_port.read_rxdat(rsv_buf.as_mut_slice(), RSV_LENGTH);
        let ghost t3 = self.spi_port.transactions();
        proof {
            lemma_chain(tp, t2, t3, s1 + s2, s3);
            assert(since(tp, t3)[2] == since(tp, t2)[2]);
        }
        if r.is_err() {
            return Err(EthControllerError::SpiPortError);
        }
        let rsv = copy_range(&rsv_buf, 1, RSV_LENGTH);
        proof {
            assert(since(tp, t3)[3] == t3.last());
            assert(rsv@ == window_data(t3.last()));
        }
        let mut rx_packet = RxPacket::new();
        rx_packet.write_to_rsv(rsv.as_slice());
        rx_packet.update_frame_length();
        let frame_length = rx_packet.get_frame_length();
        proof {
            assert(rsv@.subrange(0, RSV_LENGTH as int) =~= rsv@);
            assert(s1 + s2 + s3 =~= receive_script(next0, 0, 0, 0).take(4));
        }
        if frame_length > RAW_FRAME_LENGTH_MAX {
            return Err(EthControllerError::GeneralError);
        }
        // The frame itself.
        let mut frame_buf = zeros(frame_length + 1);
        let r = self.spi_port.read_rxdat(frame_buf.as_mut_slice(), frame_length);
        let ghost t4 = self.spi_port.transactions();
        let ghost s4 = s1 + s2 + s3 + seq![rxdat_frame(frame_length as nat)];
        proof {
            lemma_chain(tp, t3, t4, s1 + s2 + s3, seq![rxdat_frame(frame_length as nat)]);
            assert(since(tp, t4)[2] == since(tp, t3)[2]);
            assert(since(tp, t4)[3] == since(tp, t3)[3]);
        }
        if r.is_err() {
            return Err(EthControllerError::SpiPortError);
        }
        let data = copy_range(&frame_buf, 1, frame_length);
        proof {
            assert(since(tp, t4)[4] == t4.last());
            assert(data@ == window_data(t4.last()));
            lemma_rx_packet_lens(&rx_packet);
        }
        rx_packet.write_to_frame(data.as_slice());
        proof {
            assert(rx_packet@.frame.take(frame_length as int) =~= data@);
        }
        // Release the ring up to the new pointer.
        let tail = if new_next > ERXST_DEFAULT {
            new_next - 2
        } else {
            RX_MAX_ADDRESS - 1
        };
        let ghost s5 = write16_frames(ERXTAIL, tail);
        let r = self.spi_port.write_reg_16b(ERXTAIL, tail);
        let ghost t5 = self.spi_port.transactions();
        proof {
            lemma_chain(tp, t4, t5, s4, s5);
        }
        if r.is_err() {
            return Err(EthControllerError::SpiPortError);
        }
        // Set PKTDEC (ECON1<8>) to decrement the packet count.
        let econ1_hi = self.spi_port.read_reg_8b(ECON1 + 1);
        let ghost t6 = self.spi_port.transactions();
        let ghost s6 = s4 + s5 + seq![read_frame((ECON1 + 1) as u8)];
        proof {
            lemma_chain(tp, t5, t6, s4 + s5, seq![read_frame((ECON1 + 1) as u8)]);
        }
        let econ1_hi = match econ1_hi {
            Ok(v) => v,
            Err(_) => {
                return Err(EthControllerError::SpiPortError);
            },
        };
        proof {
            assert(since(tp, t6)[7] == t6.last());
        }
        let r = self.spi_port.write_reg_8b(ECON1 + 1, 0x01 | (econ1_hi & 0xfe));
        let ghost t7 = self.spi_port.transactions();
        proof {
            lemma_chain(tp, t6, t7, s6, seq![write_frame((ECON1 + 1) as u8, 0x01 | (econ1_hi & 0xfe))]);
        }
        if r.is_err() {
            return Err(EthControllerError::SpiPortError);
        }
        proof {
            let u = since(tp, t7);
            assert(u[2] == since(tp, t2)[2]);
            assert(u[3] == since(tp, t3)[3]);
            assert(u[4] == since(tp, t4)[4]);
            assert(u[7] == since(tp, t6)[7]);
            assert(s6 + seq![write_frame((ECON1 + 1) as u8, 0x01 | (econ1_hi & 0xfe))]
                =~= receive_script(next0, frame_length as nat, new_next, econ1_hi));
        }
        Ok(rx_packet)
    }

    /// Receives the next packet. Reads EIR until PKTIF is set: once where
    /// `is_poll` is false (`NoRxPacketError` if no packet waits), otherwise
    /// up to `POLL_LIMIT` times (`Timeout`). Then reads the next-packet
    /// pointer, the status vector and the frame from the RX window, releases
    /// the ring up to the new pointer and decrements the packet count.
    pub fn receive_next(&mut self, is_poll: bool) -> (r: Result<RxPacket, EthControllerError>)
        requires
            old(self).wf(),
        ensures
            final(self).wf(),
            final(self).delays() == old(self).delays(),
            final(self).tx_view() == old(self).tx_view(),
            extends(old(self).transactions(), final(self).transactions()),
            ({
                let ts = since(old(self).transactions(), final(self).transactions());
                &&& (r matches Err(EthControllerError::SpiPortError) <==> aborted(ts))
                &&& (r matches Err(EthControllerError::NoRxPacketError) <==> !is_poll && completed(
                    ts,
                ) && ts.len() == 2 && eir_polls(ts, 1, false))
                &&& (r matches Err(EthControllerError::Timeout) <==> is_poll && completed(ts)
                    && ts.len() == 2 * POLL_LIMIT && eir_polls(ts, POLL_LIMIT as int, false))
                &&& (r is Ok && !is_poll ==> ts.len() == 2 + receive_len())
                &&& (r matches Err(EthControllerError::GeneralError) && !is_poll ==> ts.len() == 6)
                &&& (r matches Err(EthControllerError::NoRxPacketError) || r matches Err(
                    EthControllerError::Timeout,
                )) ==> final(self).rx_view() == old(self).rx_view()
            }),
            r matches Ok(p) ==> ({
                let ts = since(old(self).transactions(), final(self).transactions());
                let k = (ts.len() - receive_len()) / 2;
                let u = ts.skip(2 * k);
                &&& completed(ts)
                &&& ts.len() == 2 * k + receive_len()
                &&& eir_polls(ts, k, true)
                &&& ran(
                    u,
                    receive_script(
                        old(self).rx_view().next_addr,
                        p@.frame_length,
                        next_of(u[2]),
                        reg_value(u[7]),
                    ),
                )
                &&& p@.rsv == window_data(u[3])
                &&& p@.frame_length == rsv_frame_length(p@.rsv)
                &&& p@.frame_length <= RAW_FRAME_LENGTH_MAX
                &&& p@.frame.take(p@.frame_length as int) == window_data(u[4])
                &&& final(self).rx_view() == (RxBufferView {
                    next_addr: next_of(u[2]),
                    ..old(self).rx_view()
                })
            }),
            r matches Err(EthControllerError::GeneralError) ==> ({
                let ts = since(old(self).transactions(), final(self).transactions());
                let k = (ts.len() - 4) / 2;
                let u = ts.skip(2 * k);
                &&& completed(ts)
                &&& ts.len() == 2 * k + 4
                &&& eir_polls(ts, k, true)
                &&& ran(u, receive_script(old(self).rx_view().next_addr, 0, 0, 0).take(4))
                &&& rsv_frame_length(window_data(u[3])) > RAW_FRAME_LENGTH_MAX
                &&& final(self).rx_view() == (RxBufferView {
                    next_addr: next_of(u[2]),
                    ..old(self).rx_view()
                })
            }),
    {
        let ghost t0 = self.spi_port.transactions();
        // Wait for PKTIF (EIR<6>).
        let w = self.wait_bits16(EIR, 0x40, is_poll);
        let ghost tp = self.spi_port.transactions();
        match w {
            Ok(()) => {},
            Err(e) => {
                return Err(e);
            },
        }
        let r = self.read_packet();
        proof {
            let tn = self.spi_port.transactions();
            lemma_since_concat(t0, tp, tn);
            let a = since(t0, tp);
            let u = since(tp, tn);
            let k = (a.len() / 2) as int;
            lemma_polls_prefix(a, u, EIR, 0x40, k, true);
            assert((a + u).skip(2 * k) =~= u);
        }
        r
    }
    /// Writes 0x1234 to EUDAST and reads it back.
    fn check_scratch(&mut self) -> (r: Result<u16, EthControllerError>)
        requires
            old(self).wf(),
        ensures
            final(self).wf(),
            final(self).delays() == old(self).delays(),
            final(self).rx_view() == old(self).rx_view(),
            final(self).tx_view() == old(self).tx_view(),
            performed(old(self).transactions(), final(self).transactions(), init_check_script()),
            r is Ok <==> completed(since(old(self).transactions(), final(self).transactions())),
            r matches Err(e) ==> e == EthControllerError::SpiPortError,
            r matches Ok(v) ==> v == reg16_value(
                since(old(self).transactions(), final(self).transactions()),
                2,
            ),
    {
        let ghost t0 = self.spi_port.transactions();
        let r = self.spi_port.write_reg_16b(EUDAST, 0x1234);
        let ghost t1 = self.spi_port.transactions();
        if r.is_err() {
            proof {
                lemma_stopped(since(t0, t1), write16_frames(EUDAST, 0x1234), init_check_script());
            }
            return Err(EthControllerError::SpiPortError);
        }
        let eudast = self.spi_port.read_reg_16b(EUDAST);
        let ghost t2 = self.spi_port.transactions();
        proof {
            lemma_chain(t0, t1, t2, write16_frames(EUDAST, 0x1234), read16_frames(EUDAST));
        }
        match eudast {
            Ok(v) => {
                proof {
                    let ts = since(t0, t2);
                    assert(ts[2] == since(t1, t2)[0]);
                    assert(ts[3] == since(t1, t2)[1]);
                }
                Ok(v)
            },
            Err(_) => Err(EthControllerError::SpiPortError),
        }
    }

    /// Sets ETHRST (ECON2<4>), keeping the other bits, waits 25 us and
    /// reads EUDAST, which the reset clears.
    fn reset_device<D: DelayUs>(&mut self, delay: &mut D) -> (r: Result<u16, EthControllerError>)
        requires
            old(self).wf(),
        ensures
            final(self).wf(),
            final(self).delays() == if since(
                old(self).transactions(),
                final(self).transactions(),
            ).len() > 2 {
                old(self).delays().push(
                    DelayMark { us: 25, at: old(self).transactions().len() + 2 },
                )
            } else {
                old(self).delays()
            },
            final(self).rx_view() == old(self).rx_view(),
            final(self).tx_view() == old(self).tx_view(),
            performed(
                old(self).transactions(),
                final(self).transactions(),
                reset_script(
                    reg_value(since(old(self).transactions(), final(self).transactions())[0]),
                ),
            ),
            r is Ok <==> completed(since(old(self).transactions(), final(self).transactions())),
            r matches Err(e) ==> e == EthControllerError::SpiPortError,
            r matches Ok(v) ==> v == reg16_value(
                since(old(self).transactions(), final(self).transactions()),
                2,
            ),
    {
        let ghost t0 = self.spi_port.transactions();
        let econ2 = self.spi_port.read_reg_8b(ECON2);
        let ghost t1 = self.spi_port.transactions();
        let econ2 = match econ2 {
            Ok(v) => v,
            Err(_) => {
                proof {
                    let ts = since(t0, t1);
                    lemma_stopped(ts, seq![read_frame(ECON2)], reset_script(reg_value(ts[0])));
                }
                return Err(EthControllerError::SpiPortError);
            },
        };
        proof {
            assert(since(t0, t1)[0] == t1.last());
        }
        let ghost s2 = seq![read_frame(ECON2)] + seq![write_frame(ECON2, 0x10 | (econ2 & 0b1110_1111))];
        let r = self.spi_port.write_reg_8b(ECON2, 0x10 | (econ2 & 0b1110_1111));
        let ghost t2 = self.spi_port.transactions();
        proof {
            let reset = seq![write_frame(ECON2, 0x10 | (econ2 & 0b1110_1111))];
            lemma_chain(t0, t1, t2, seq![read_frame(ECON2)], reset);
            assert(since(t0, t2)[0] == since(t0, t1)[0]);
            assert(s2 + read16_frames(EUDAST) =~= reset_script(econ2));
        }
        if r.is_err() {
            proof {
                lemma_stopped(since(t0, t2), s2, reset_script(econ2));
            }
            return Err(EthControllerError::SpiPortError);
        }
        self.wait_us(delay, 25);
        let eudast = self.spi_port.read_reg_16b(EUDAST);
        let ghost t3 = self.spi_port.transactions();
        proof {
            lemma_chain(t0, t2, t3, s2, read16_frames(EUDAST));
            assert(since(t0, t3)[0] == since(t0, t2)[0]);
        }
        match eudast {
            Ok(v) => {
                proof {
                    let ts = since(t0, t3);
                    assert(ts[2] == since(t2, t3)[0]);
                    assert(ts[3] == since(t2, t3)[1]);
                }
                Ok(v)
            },
            Err(_) => Err(EthControllerError::SpiPortError),
        }
    }

    /// Brings the device up: checks that EUDAST holds what is written to
    /// it, waits for CLKRDY (at most `POLL_LIMIT` reads of ESTAT), resets
    /// the device through ETHRST, waits 25 us, checks that the reset cleared
    /// EUDAST, and waits 256 us for the PHY and MAC to settle.
    #[verifier::rlimit(50)]
    pub fn init_dev<D: DelayUs>(&mut self, delay: &mut D) -> (r: Result<(), EthControllerError>)
        requires
            old(self).wf(),
        ensures
            final(self).wf(),
            old(self).delays().is_prefix_of(final(self).delays()),
            ({
                let ts = since(old(self).transactions(), final(self).transactions());
                let ds = final(self).delays().skip(old(self).delays().len() as int);
                let base = old(self).transactions().len();
                &&& (r is Ok ==> ds == seq![
                    DelayMark { us: 25, at: (base + ts.len() - 2) as nat },
                    DelayMark { us: 256, at: base + ts.len() },
                ])
                &&& (r matches Err(EthControllerError::GeneralError) ==> (ts.len() == 4 && ds.len()
                    == 0) || (ts.len() > 4 && ds == seq![
                    DelayMark { us: 25, at: (base + ts.len() - 2) as nat },
                ]))
                &&& (r matches Err(EthControllerError::Timeout) ==> ds.len() == 0)
                &&& (r matches Err(EthControllerError::SpiPortError) ==> ds.len() <= 1 && (ds.len()
                    == 1 ==> ds[0].us == 25 && base + ts.len() - 2 <= ds[0].at < base + ts.len()))
            }),
            final(self).rx_view() == old(self).rx_view(),
            final(self).tx_view() == old(self).tx_view(),
            extends(old(self).transactions(), final(self).transactions()),
            ({
                let ts = since(old(self).transactions(), final(self).transactions());
                &&& (r matches Err(EthControllerError::SpiPortError) <==> aborted(ts))
                &&& !(r matches Err(EthControllerError::NoRxPacketError))
                &&& (r is Ok ==> completed(ts) && init_dev_ran(ts) && reg16_value(
                    ts,
                    ts.len() - 2,
                ) == 0)
                &&& (r matches Err(EthControllerError::GeneralError) ==> completed(ts) && ((
                ts.len() == 4 && ran(ts, init_check_script()) && reg16_value(ts, 2) != 0x1234) || (
                init_dev_ran(ts) && reg16_value(ts, ts.len() - 2) != 0)))
                &&& (r matches Err(EthControllerError::Timeout) ==> completed(ts) && ts.len() == 4
                    + 2 * POLL_LIMIT && ran(ts.take(4), init_check_script()) && reg16_value(ts, 2)
                    == 0x1234 && bit_polls(ts.skip(4), ESTAT, 0x1000, POLL_LIMIT as int, false))
            }),
    {
        let ghost t0 = self.spi_port.transactions();
        // Write 0x1234 to EUDAST and read it back.
        let eudast = self.check_scratch();
        let ghost t2 = self.spi_port.transactions();
        let eudast = match eudast {
            Ok(v) => v,
            Err(e) => {
                return Err(e);
            },
        };
        proof {
            assert(since(t0, t2).take(4) =~= since(t0, t2));
        }
        if eudast != 0x1234 {
            return Err(EthControllerError::GeneralError);
        }
        // Wait for CLKRDY (ESTAT<12>).
        let w = self.wait_bits16(ESTAT, 0x1000, true);
        let ghost t3 = self.spi_port.transactions();
        proof {
            lemma_since_concat(t0, t2, t3);
            let ts = since(t0, t3);
            assert(ts.take(4) =~= since(t0, t2));
            assert(ts.skip(4) =~= since(t2, t3));
            assert(ts[2] == since(t0, t2)[2]);
            assert(ts[3] == since(t0, t2)[3]);
        }
        match w {
            Ok(()) => {},
            Err(e) => {
                return Err(e);
            },
        }
        // Reset, and check that the reset cleared EUDAST.
        let eudast = self.reset_device(delay);
        let ghost t6 = self.spi_port.transactions();
        proof {
            lemma_since_concat(t0, t3, t6);
        }
        let eudast = match eudast {
            Ok(v) => v,
            Err(e) => {
                return Err(e);
            },
        };
        proof {
            let a = since(t0, t3);
            let u = since(t3, t6);
            let ts = since(t0, t6);
            assert(ts =~= a + u);
            assert(ts.take(4) =~= a.take(4));
            assert(ts[2] == a[2]);
            assert(ts[3] == a[3]);
            let polls = since(t2, t3);
            let k = (polls.len() / 2) as int;
            lemma_polls_prefix(polls, u, ESTAT, 0x1000, k, true);
            assert(ts.skip(4) =~= polls + u);
            assert(ts.skip(ts.len() - 4) =~= u);
            assert(ts[ts.len() - 4] == u[0]);
            assert(ts[ts.len() - 2] == u[2]);
            assert(ts[ts.len() - 1] == u[3]);
        }
        if eudast != 0x0000 {
            return Err(EthControllerError::GeneralError);
        }
        // Let the PHY and MAC settle.
        self.wait_us(delay, 256);
        Ok(())
    }
}

} // verus!
