//! The SPI access protocol of the ENC424J600: opcode-prefixed transactions,
//! each one framed by the active-low chip-select line.
//!
//! The port keeps a ghost record of everything it did on the bus (`events`),
//! and the contracts below are stated over that record: which bytes went out,
//! what came back, and how the chip-select line moved around each transfer.
use vstd::prelude::*;

verus! {

/// Read a control register by its full (unbanked) address.
pub const RCRU: u8 = 0b0010_0000;

/// Write a control register by its full (unbanked) address.
pub const WCRU: u8 = 0b0010_0010;

/// Read from the RX data window; the controller advances its read pointer.
pub const RERXDATA: u8 = 0b0010_1100;

/// Write to the general-purpose data window; the controller advances EGPWRPT.
pub const WEGPDATA: u8 = 0b0010_1010;

// Register map (unbanked addresses; every register is 16 bits, low byte first).
pub const ETXST: u8 = 0x00;

pub const ETXLEN: u8 = 0x02;

pub const ERXST: u8 = 0x04;

pub const ERXTAIL: u8 = 0x06;

pub const ETXSTAT: u8 = 0x12;

pub const EUDAST: u8 = 0x16;

pub const ESTAT: u8 = 0x1a;

pub const EIR: u8 = 0x1c;

pub const ECON1: u8 = 0x1e;

pub const ERXFCON: u8 = 0x34;

pub const MAMXFL: u8 = 0x4a;

pub const MAADR3: u8 = 0x60;

pub const MAADR2: u8 = 0x62;

pub const MAADR1: u8 = 0x64;

pub const ECON2: u8 = 0x6e;

pub const EGPWRPT: u8 = 0x88;

pub const ERXRDPT: u8 = 0x8a;

/// Failure of the host's SPI transceiver.
#[derive(Debug, Clone, Copy, PartialEq, Eq, Structural)]
pub enum SpiPortError {
    TransferError,
}

/// Full-duplex transfer on the host's SPI bus (mode 0, at most 14 MHz).
///
/// On entry `words` holds the bytes to send; on success it holds the bytes
/// that were clocked in. Nothing is assumed of an implementation: the port
/// is verified for every behaviour of it, and treats a reply whose length
/// differs from what was sent as a failed transfer.
pub trait SpiTransfer {
    fn transfer(&mut self, words: &mut [u8]) -> Result<(), SpiPortError>;
}

/// The controller's active-low chip-select output.
pub trait ChipSelect {
    fn set_low(&mut self);

    fn set_high(&mut self);
}

/// One SPI transfer: the bytes sent, and the bytes received, or `None` where
/// the transfer failed.
pub struct Transaction {
    pub sent: Seq<u8>,
    pub reply: Option<Seq<u8>>,
}

/// What the port did on the bus, in order.
pub enum BusEvent {
    CsLow,
    CsHigh,
    Transfer { txn: Transaction },
}

/// The events of one transaction: chip-select asserted, one transfer,
/// chip-select released.
pub open spec fn window(sent: Seq<u8>, reply: Option<Seq<u8>>) -> Seq<BusEvent> {
    seq![BusEvent::CsLow, BusEvent::Transfer { txn: Transaction { sent, reply } }, BusEvent::CsHigh]
}

/// The `k`-th window of a record that starts with the initial release of
/// chip-select.
pub open spec fn is_window(e: Seq<BusEvent>, k: int) -> bool {
    &&& e[3 * k + 1] is CsLow
    &&& e[3 * k + 2] is Transfer
    &&& e[3 * k + 3] is CsHigh
}

/// The record is the initial release of chip-select followed by whole
/// windows: each transfer has chip-select low before it and high after it,
/// and no two transfers share a window.
pub open spec fn framed(e: Seq<BusEvent>) -> bool {
    &&& e.len() % 3 == 1
    &&& e[0] is CsHigh
    &&& forall|k: int| 0 <= k < (e.len() - 1) / 3 ==> #[trigger] is_window(e, k)
}

/// The transfers of a framed record, in order.
pub open spec fn transactions_of(e: Seq<BusEvent>) -> Seq<Transaction> {
    Seq::new(((e.len() - 1) / 3) as nat, |k: int| e[3 * k + 2]->txn)
}

/// Every reply has as many bytes as were sent.
pub open spec fn replies_fit(ts: Seq<Transaction>) -> bool {
    forall|i: int|
        0 <= i < ts.len() && (#[trigger] ts[i]).reply is Some ==> ts[i].reply.unwrap().len()
            == ts[i].sent.len()
}

/// `after` is `before` with transactions added at the end.
pub open spec fn extends(before: Seq<Transaction>, after: Seq<Transaction>) -> bool {
    &&& before.len() <= after.len()
    &&& after.subrange(0, before.len() as int) == before
}

/// The transactions of `after` beyond those of `before`.
pub open spec fn since(before: Seq<Transaction>, after: Seq<Transaction>) -> Seq<Transaction> {
    after.skip(before.len() as int)
}

/// Every transfer succeeded.
pub open spec fn completed(ts: Seq<Transaction>) -> bool {
    forall|i: int| 0 <= i < ts.len() ==> (#[trigger] ts[i]).reply is Some
}

/// The last transfer failed, and it was the only one that did.
pub open spec fn aborted(ts: Seq<Transaction>) -> bool {
    &&& ts.len() > 0
    &&& ts.last().reply is None
    &&& completed(ts.drop_last())
}

/// `ts` sent the frames of `script` in order, and stopped either at the end
/// of it, every transfer having succeeded, or at the first failed transfer.
pub open spec fn ran(ts: Seq<Transaction>, script: Seq<Seq<u8>>) -> bool {
    &&& ts.len() <= script.len()
    &&& forall|i: int| 0 <= i < ts.len() ==> (#[trigger] ts[i]).sent == script[i]
    &&& (completed(ts) && ts.len() == script.len()) || aborted(ts)
}

/// The data byte that a register read returned.
pub open spec fn reg_value(t: Transaction) -> u8 {
    t.reply.unwrap()[2]
}

/// The frame that reads register `addr`.
pub open spec fn read_frame(addr: u8) -> Seq<u8> {
    seq![RCRU, addr, 0u8]
}

/// The frame that writes `data` to register `addr`.
pub open spec fn write_frame(addr: u8, data: u8) -> Seq<u8> {
    seq![WCRU, addr, data]
}

pub open spec fn lo_byte(v: u16) -> u8 {
    (v & 0xff) as u8
}

pub open spec fn hi_byte(v: u16) -> u8 {
    ((v >> 8) & 0xff) as u8
}

/// A 16-bit value from its two bytes, little-endian.
pub open spec fn le16(lo: u8, hi: u8) -> u16 {
    ((hi as u16) << 8) | (lo as u16)
}

/// The frames that read the 16-bit register at `lo_addr`.
pub open spec fn read16_frames(lo_addr: u8) -> Seq<Seq<u8>> {
    seq![read_frame(lo_addr), read_frame((lo_addr + 1) as u8)]
}

/// The frames that write `v` to the 16-bit register at `lo_addr`.
pub open spec fn write16_frames(lo_addr: u8, v: u16) -> Seq<Seq<u8>> {
    seq![write_frame(lo_addr, lo_byte(v)), write_frame((lo_addr + 1) as u8, hi_byte(v))]
}

/// The 16-bit value read by the two transactions at `i` and `i + 1`.
pub open spec fn reg16_value(ts: Seq<Transaction>, i: int) -> u16 {
    le16(reg_value(ts[i]), reg_value(ts[i + 1]))
}

/// The frame that reads `n` bytes from the RX data window.
pub open spec fn rxdat_frame(n: nat) -> Seq<u8> {
    seq![RERXDATA] + Seq::new(n, |i: int| 0u8)
}

/// The frame that writes `data` to the general-purpose data window.
pub open spec fn txdat_frame(data: Seq<u8>) -> Seq<u8> {
    seq![WEGPDATA] + data
}

/// The bytes that a data-window read returned, past the opcode's slot.
pub open spec fn window_data(t: Transaction) -> Seq<u8> {
    t.reply.unwrap().skip(1)
}

pub proof fn lemma_window_appended(e: Seq<BusEvent>, sent: Seq<u8>, reply: Option<Seq<u8>>)
    requires
        framed(e),
    ensures
        framed(e + window(sent, reply)),
        transactions_of(e + window(sent, reply)) == transactions_of(e).push(
            Transaction { sent, reply },
        ),
{
    let e2 = e + window(sent, reply);
    let n = (e.len() - 1) / 3;
    assert((e2.len() - 1) / 3 == n + 1);
    assert forall|k: int| 0 <= k < (e2.len() - 1) / 3 implies #[trigger] is_window(e2, k) by {
        if k < n {
            assert(is_window(e, k));
        }
    }
    assert(transactions_of(e2) =~= transactions_of(e).push(Transaction { sent, reply }));
}

/// From `before` to `after` the port ran `script`, as far as it got.
pub open spec fn performed(
    before: Seq<Transaction>,
    after: Seq<Transaction>,
    script: Seq<Seq<u8>>,
) -> bool {
    &&& extends(before, after)
    &&& ran(since(before, after), script)
}

/// `a` is `b` cut short, or `b` itself.
pub open spec fn prefix_of(a: Seq<Seq<u8>>, b: Seq<Seq<u8>>) -> bool {
    &&& a.len() <= b.len()
    &&& forall|i: int| 0 <= i < a.len() ==> b[i] == #[trigger] a[i]
}

/// Two runs one after the other are one run of both scripts.
pub proof fn lemma_chain(
    t0: Seq<Transaction>,
    t1: Seq<Transaction>,
    t2: Seq<Transaction>,
    s1: Seq<Seq<u8>>,
    s2: Seq<Seq<u8>>,
)
    requires
        performed(t0, t1, s1),
        completed(since(t0, t1)),
        performed(t1, t2, s2),
    ensures
        performed(t0, t2, s1 + s2),
        since(t0, t2) == since(t0, t1) + since(t1, t2),
        completed(since(t0, t2)) == completed(since(t1, t2)),
{
    let a = since(t0, t1);
    let b = since(t1, t2);
    assert(t2.subrange(0, t1.len() as int) == t1);
    assert(t2.subrange(0, t0.len() as int) =~= t1.subrange(0, t0.len() as int));
    assert(since(t0, t2) =~= a + b);
    let ab = a + b;
    if completed(b) {
        assert forall|i: int| 0 <= i < ab.len() implies (#[trigger] ab[i]).reply is Some by {
            if i < a.len() {
                assert(a[i] == ab[i]);
            } else {
                assert(b[i - a.len()] == ab[i]);
            }
        }
    } else {
        assert(ab.drop_last() =~= a + b.drop_last());
        let c = ab.drop_last();
        assert forall|i: int| 0 <= i < c.len() implies (#[trigger] c[i]).reply is Some by {
            if i < a.len() {
                assert(a[i] == c[i]);
            } else {
                assert(b.drop_last()[i - a.len()] == c[i]);
            }
        }
        assert(!completed(ab)) by {
            assert(ab[ab.len() - 1] == b[b.len() - 1]);
        }
    }
    assert forall|i: int| 0 <= i < ab.len() implies (#[trigger] ab[i]).sent == (s1 + s2)[i] by {
        if i < a.len() {
            assert(a[i] == ab[i]);
        } else {
            assert(b[i - a.len()] == ab[i]);
        }
    }
}

/// Transactions taken one after the other, and the status of the whole.
pub proof fn lemma_since_concat(t0: Seq<Transaction>, t1: Seq<Transaction>, t2: Seq<Transaction>)
    requires
        extends(t0, t1),
        extends(t1, t2),
    ensures
        extends(t0, t2),
        since(t0, t2) == since(t0, t1) + since(t1, t2),
        completed(since(t0, t2)) == (completed(since(t0, t1)) && completed(since(t1, t2))),
        completed(since(t0, t1)) ==> (aborted(since(t0, t2)) == aborted(since(t1, t2))),
{
    let a = since(t0, t1);
    let b = since(t1, t2);
    assert(t2.subrange(0, t1.len() as int) == t1);
    assert(t2.subrange(0, t0.len() as int) =~= t1.subrange(0, t0.len() as int));
    assert(since(t0, t2) =~= a + b);
    let ab = a + b;
    assert(completed(ab) ==> completed(a)) by {
        if completed(ab) {
            assert forall|i: int| 0 <= i < a.len() implies (#[trigger] a[i]).reply is Some by {
                assert(ab[i] == a[i]);
            }
        }
    }
    assert(completed(ab) ==> completed(b)) by {
        if completed(ab) {
            assert forall|i: int| 0 <= i < b.len() implies (#[trigger] b[i]).reply is Some by {
                assert(ab[i + a.len()] == b[i]);
            }
        }
    }
    assert(completed(a) && completed(b) ==> completed(ab)) by {
        if completed(a) && completed(b) {
            assert forall|i: int| 0 <= i < ab.len() implies (#[trigger] ab[i]).reply is Some by {
                if i < a.len() {
                    assert(a[i] == ab[i]);
                } else {
                    assert(b[i - a.len()] == ab[i]);
                }
            }
        }
    }
    if completed(a) && b.len() > 0 {
        assert(ab.drop_last() =~= a + b.drop_last());
        assert(ab.last() == b.last());
        let c = ab.drop_last();
        let d = b.drop_last();
        assert(completed(c) == completed(d)) by {
            if completed(d) {
                assert forall|i: int| 0 <= i < c.len() implies (#[trigger] c[i]).reply is Some by {
                    if i < a.len() {
                        assert(a[i] == c[i]);
                    } else {
                        assert(d[i - a.len()] == c[i]);
                    }
                }
            }
            if completed(c) {
                assert forall|i: int| 0 <= i < d.len() implies (#[trigger] d[i]).reply is Some by {
                    assert(c[i + a.len()] == d[i]);
                }
            }
        }
    }
    if b.len() == 0 {
        assert(ab =~= a);
    }
}

/// A run that stopped at a failed transfer also ran any longer script that
/// begins with the same frames.
pub proof fn lemma_stopped(ts: Seq<Transaction>, s: Seq<Seq<u8>>, longer: Seq<Seq<u8>>)
    requires
        ran(ts, s),
        !completed(ts),
        prefix_of(s, longer),
    ensures
        ran(ts, longer),
{
    assert forall|i: int| 0 <= i < ts.len() implies (#[trigger] ts[i]).sent == longer[i] by {
        assert(ts[i].sent == s[i]);
    }
}

/// The kind of event at index `i >= 1` of a framed record goes by its
/// place in its window.
proof fn lemma_framed_at(e: Seq<BusEvent>, i: int)
    requires
        framed(e),
        1 <= i < e.len(),
    ensures
        (i - 1) % 3 == 0 ==> e[i] is CsLow && i + 2 < e.len() && e[i + 1] is Transfer && e[i
            + 2] is CsHigh,
        (i - 1) % 3 == 1 ==> e[i] is Transfer && e[i - 1] is CsLow && i + 1 < e.len() && e[i
            + 1] is CsHigh,
        (i - 1) % 3 == 2 ==> e[i] is CsHigh,
{
    let k = (i - 1) / 3;
    vstd::arithmetic::div_mod::lemma_fundamental_div_mod(i - 1, 3);
    assert(0 <= k < (e.len() - 1) / 3);
    assert(is_window(e, k));
}

/// In a framed record every transfer stands alone between chip-select going
/// low just before it and high just after it: each low is followed by one
/// transfer and then high, and each transfer is preceded by low and followed
/// by high.
pub proof fn lemma_framed_transfers(e: Seq<BusEvent>)
    requires
        framed(e),
    ensures
        forall|i: int|
            0 <= i < e.len() && (#[trigger] e[i]) is CsLow ==> i + 2 < e.len() && e[i + 1] is Transfer
                && e[i + 2] is CsHigh,
        forall|i: int|
            0 <= i < e.len() && (#[trigger] e[i]) is Transfer ==> 1 <= i && i + 1 < e.len() && e[i
                - 1] is CsLow && e[i + 1] is CsHigh,
{
    assert forall|i: int| 0 <= i < e.len() && (#[trigger] e[i]) is CsLow implies i + 2 < e.len()
        && e[i + 1] is Transfer && e[i + 2] is CsHigh by {
        lemma_framed_at(e, i);
    }
    assert forall|i: int| 0 <= i < e.len() && (#[trigger] e[i]) is Transfer implies 1 <= i && i + 1
        < e.len() && e[i - 1] is CsLow && e[i + 1] is CsHigh by {
        lemma_framed_at(e, i);
    }
}

/// SPI access to the controller: owns the transceiver and chip-select.
pub struct SpiPort<SPI: SpiTransfer, NSS: ChipSelect> {
    spi: SPI,
    nss: NSS,
    events: Ghost<Seq<BusEvent>>,
}

impl<SPI: SpiTransfer, NSS: ChipSelect> SpiPort<SPI, NSS> {
    /// Everything the port did on the bus since it was made.
    pub closed spec fn events(&self) -> Seq<BusEvent> {
        self.events@
    }

    /// The transfers the port made, in order.
    pub open spec fn transactions(&self) -> Seq<Transaction> {
        transactions_of(self.events())
    }

    pub open spec fn wf(&self) -> bool {
        &&& framed(self.events())
        &&& replies_fit(self.transactions())
    }

    /// Takes the bus, releasing chip-select.
    pub fn new(spi: SPI, nss: NSS) -> (r: Self)
        ensures
            r.wf(),
            r.events() == seq![BusEvent::CsHigh],
            r.transactions().len() == 0,
    {
        let mut nss = nss;
        nss.set_high();
        let ghost events = seq![BusEvent::CsHigh];
        SpiPort { spi, nss, events: Ghost(events) }
    }

    /// One transaction: chip-select low, transfer `sent`, chip-select high,
    /// whether or not the transfer succeeded.
    fn transact(&mut self, sent: Vec<u8>) -> (r: Result<Vec<u8>, SpiPortError>)
        requires
            old(self).wf(),
        ensures
            final(self).wf(),
            final(self).events() == old(self).events() + window(
                sent@,
                final(self).transactions().last().reply,
            ),
            final(self).transactions() == old(self).transactions().push(
                Transaction {
                    sent: sent@,
                    reply: match r {
                        Ok(v) => Some(v@),
                        Err(_) => None,
                    },
                },
            ),
    {
        let ghost sent_view = sent@;
        let n = sent.len();
        self.nss.set_low();
        let mut buf = sent;
        let res = self.spi.transfer(buf.as_mut_slice());
        self.nss.set_high();
        let r = match res {
            Ok(()) => {
                if buf.len() == n {
                    Ok(buf)
                } else {
                    Err(SpiPortError::TransferError)
                }
            },
            Err(e) => Err(e),
        };
        let ghost reply = match &r {
            Ok(v) => Some(v@),
            Err(_) => None,
        };
        proof {
            lemma_window_appended(self.events@, sent_view, reply);
            let ts = transactions_of(self.events@ + window(sent_view, reply));
            assert(ts.last() == Transaction { sent: sent_view, reply });
            assert forall|i: int|
                0 <= i < ts.len() && (#[trigger] ts[i]).reply is Some implies ts[i].reply.unwrap().len()
                == ts[i].sent.len() by {
                if i < ts.len() - 1 {
                    assert(ts[i] == self.transactions()[i]);
                }
            }
        }
        self.events = Ghost(self.events@ + window(sent_view, reply));
        r
    }
    /// One register transaction: `opcode`, `addr`, `data`; returns the
    /// third byte received.
    fn rw_addr_u8(&mut self, opcode: u8, addr: u8, data: u8) -> (r: Result<u8, SpiPortError>)
        requires
            old(self).wf(),
        ensures
            final(self).wf(),
            performed(
                old(self).transactions(),
                final(self).transactions(),
                seq![seq![opcode, addr, data]],
            ),
            r is Ok <==> completed(since(old(self).transactions(), final(self).transactions())),
            r matches Ok(v) ==> v == reg_value(final(self).transactions().last()),
    {
        let buf: Vec<u8> = vec![opcode, addr, data];
        let ghost t0 = self.transactions();
        let res = self.transact(buf);
        proof {
            let ts = since(t0, self.transactions());
            assert(self.transactions().subrange(0, t0.len() as int) =~= t0);
            assert(ts =~= seq![self.transactions().last()]);
            assert(ts.drop_last() =~= Seq::<Transaction>::empty());
            assert(seq![opcode, addr, data] =~= buf@);
        }
        match res {
            Ok(v) => Ok(v[2]),
            Err(e) => Err(e),
        }
    }

    /// Reads the 8-bit register at `addr`.
    pub fn read_reg_8b(&mut self, addr: u8) -> (r: Result<u8, SpiPortError>)
        requires
            old(self).wf(),
        ensures
            final(self).wf(),
            performed(old(self).transactions(), final(self).transactions(), seq![read_frame(addr)]),
            r is Ok <==> completed(since(old(self).transactions(), final(self).transactions())),
            r matches Ok(v) ==> v == reg_value(final(self).transactions().last()),
    {
        self.rw_addr_u8(RCRU, addr, 0)
    }

    /// Writes `data` to the 8-bit register at `addr`.
    pub fn write_reg_8b(&mut self, addr: u8, data: u8) -> (r: Result<(), SpiPortError>)
        requires
            old(self).wf(),
        ensures
            final(self).wf(),
            performed(
                old(self).transactions(),
                final(self).transactions(),
                seq![write_frame(addr, data)],
            ),
            r is Ok <==> completed(since(old(self).transactions(), final(self).transactions())),
    {
        match self.rw_addr_u8(WCRU, addr, data) {
            Ok(_) => Ok(()),
            Err(e) => Err(e),
        }
    }

    /// Reads the 16-bit register whose low byte is at `lo_addr`: low byte
    /// first, then high byte.
    pub fn read_reg_16b(&mut self, lo_addr: u8) -> (r: Result<u16, SpiPortError>)
        requires
            old(self).wf(),
            lo_addr < 0xff,
        ensures
            final(self).wf(),
            performed(old(self).transactions(), final(self).transactions(), read16_frames(lo_addr)),
            r is Ok <==> completed(since(old(self).transactions(), final(self).transactions())),
            r matches Ok(v) ==> v == reg16_value(
                since(old(self).transactions(), final(self).transactions()),
                0,
            ),
    {
        let ghost t0 = self.transactions();
        let r_data_lo = self.read_reg_8b(lo_addr);
        let ghost t1 = self.transactions();
        let r_data_lo = match r_data_lo {
            Ok(v) => v,
            Err(e) => {
                proof {
                    lemma_stopped(since(t0, t1), seq![read_frame(lo_addr)], read16_frames(lo_addr));
                }
                return Err(e);
            },
        };
        let r_data_hi = self.read_reg_8b(lo_addr + 1);
        proof {
            lemma_chain(
                t0,
                t1,
                self.transactions(),
                seq![read_frame(lo_addr)],
                seq![read_frame((lo_addr + 1) as u8)],
            );
            assert(seq![read_frame(lo_addr)] + seq![read_frame((lo_addr + 1) as u8)]
                =~= read16_frames(lo_addr));
        }
        let r_data_hi = match r_data_hi {
            Ok(v) => v,
            Err(e) => return Err(e),
        };
        // Combine the two bytes, high byte from the higher address.
        Ok(((r_data_hi as u16) << 8) | r_data_lo as u16)
    }

    /// Writes `data` to the 16-bit register whose low byte is at `lo_addr`:
    /// low byte first, then high byte.
    pub fn write_reg_16b(&mut self, lo_addr: u8, data: u16) -> (r: Result<(), SpiPortError>)
        requires
            old(self).wf(),
            lo_addr < 0xff,
        ensures
            final(self).wf(),
            performed(
                old(self).transactions(),
                final(self).transactions(),
                write16_frames(lo_addr, data),
            ),
            r is Ok <==> completed(since(old(self).transactions(), final(self).transactions())),
    {
        let ghost t0 = self.transactions();
        let lo = self.write_reg_8b(lo_addr, (data & 0xff) as u8);
        let ghost t1 = self.transactions();
        if lo.is_err() {
            proof {
                lemma_stopped(
                    since(t0, t1),
                    seq![write_frame(lo_addr, lo_byte(data))],
                    write16_frames(lo_addr, data),
                );
            }
            return lo;
        }
        let hi = self.write_reg_8b(lo_addr + 1, ((data >> 8) & 0xff) as u8);
        proof {
            lemma_chain(
                t0,
                t1,
                self.transactions(),
                seq![write_frame(lo_addr, lo_byte(data))],
                seq![write_frame((lo_addr + 1) as u8, hi_byte(data))],
            );
            assert(seq![write_frame(lo_addr, lo_byte(data))] + seq![
                write_frame((lo_addr + 1) as u8, hi_byte(data)),
            ] =~= write16_frames(lo_addr, data));
        }
        hi
    }
    /// Reads `data_length` bytes from a data window in one transaction: the
    /// opcode, then as many zero bytes. What came back, opcode slot first,
    /// lands at the front of `buf`.
    fn r_n(&mut self, buf: &mut [u8], opcode: u8, data_length: usize) -> (r: Result<
        (),
        SpiPortError,
    >)
        requires
            old(self).wf(),
            data_length < old(buf)@.len(),
        ensures
            final(self).wf(),
            performed(
                old(self).transactions(),
                final(self).transactions(),
                seq![seq![opcode] + Seq::new(data_length as nat, |i: int| 0u8)],
            ),
            r is Ok <==> completed(since(old(self).transactions(), final(self).transactions())),
            final(buf)@.len() == old(buf)@.len(),
            r is Ok ==> final(buf)@ == final(self).transactions().last().reply.unwrap() + old(
                buf,
            )@.skip(data_length + 1),
            r is Err ==> final(buf)@ == old(buf)@,
    {
        let buf_len = buf.len();
        assert(data_length < buf_len);
        let mut out: Vec<u8> = Vec::with_capacity(data_length + 1);
        out.push(opcode);
        while out.len() < data_length + 1
            invariant
                data_length < buf_len,
                1 <= out@.len() <= data_length + 1,
                out@ == seq![opcode] + Seq::new((out@.len() - 1) as nat, |i: int| 0u8),
            decreases data_length + 1 - out@.len(),
        {
            out.push(0);
            proof {
                assert(out@ =~= seq![opcode] + Seq::new((out@.len() - 1) as nat, |i: int| 0u8));
            }
        }
        let ghost t0 = self.transactions();
        let ghost sent = out@;
        let res = self.transact(out);
        proof {
            let ts = since(t0, self.transactions());
            assert(self.transactions().subrange(0, t0.len() as int) =~= t0);
            assert(ts =~= seq![self.transactions().last()]);
            assert(ts.drop_last() =~= Seq::<Transaction>::empty());
            assert(self.transactions().last().sent == sent);
        }
        match res {
            Ok(v) => {
                let n = v.len();
                let ghost before = buf@;
                let mut i: usize = 0;
                while i < n
                    invariant
                        n == v@.len(),
                        n == data_length + 1,
                        buf@.len() == before.len(),
                        n <= before.len(),
                        0 <= i <= n,
                        forall|j: int| 0 <= j < i ==> buf@[j] == v@[j],
                        forall|j: int| n <= j < before.len() ==> buf@[j] == before[j],
                    decreases n - i,
                {
                    buf[i] = v[i];
                    i += 1;
                }
                proof {
                    assert(buf@ =~= v@ + before.skip(data_length + 1));
                }
                Ok(())
            },
            Err(e) => Err(e),
        }
    }

    /// Writes `buf[1..=data_length]` to a data window in one transaction,
    /// after putting the opcode in `buf[0]`.
    fn w_n(&mut self, buf: &mut [u8], opcode: u8, data_length: usize) -> (r: Result<
        (),
        SpiPortError,
    >)
        requires
            old(self).wf(),
            data_length < old(buf)@.len(),
        ensures
            final(self).wf(),
            performed(
                old(self).transactions(),
                final(self).transactions(),
                seq![seq![opcode] + old(buf)@.subrange(1, data_length + 1)],
            ),
            r is Ok <==> completed(since(old(self).transactions(), final(self).transactions())),
            final(buf)@ == old(buf)@.update(0, opcode),
    {
        let buf_len = buf.len();
        assert(data_length < buf_len);
        buf[0] = opcode;
        let mut out: Vec<u8> = Vec::with_capacity(data_length + 1);
        let mut i: usize = 0;
        while i < data_length + 1
            invariant
                data_length < buf@.len(),
                0 <= i <= data_length + 1,
                out@ == buf@.subrange(0, i as int),
            decreases data_length + 1 - i,
        {
            out.push(buf[i]);
            i += 1;
            proof {
                assert(out@ =~= buf@.subrange(0, i as int));
            }
        }
        proof {
            assert(out@ =~= seq![opcode] + old(buf)@.subrange(1, data_length + 1));
        }
        let ghost t0 = self.transactions();
        let ghost sent = out@;
        let res = self.transact(out);
        proof {
            let ts = since(t0, self.transactions());
            assert(self.transactions().subrange(0, t0.len() as int) =~= t0);
            assert(ts =~= seq![self.transactions().last()]);
            assert(ts.drop_last() =~= Seq::<Transaction>::empty());
            assert(self.transactions().last().sent == sent);
        }
        match res {
            Ok(_) => Ok(()),
            Err(e) => Err(e),
        }
    }

    /// Reads `data_length` bytes from the RX data window, continuing where
    /// the previous read left off. The bytes land in `buf[1..=data_length]`;
    /// `buf[0]` gets the byte received during the opcode.
    pub fn read_rxdat(&mut self, buf: &mut [u8], data_length: usize) -> (r: Result<
        (),
        SpiPortError,
    >)
        requires
            old(self).wf(),
            data_length < old(buf)@.len(),
        ensures
            final(self).wf(),
            performed(
                old(self).transactions(),
                final(self).transactions(),
                seq![rxdat_frame(data_length as nat)],
            ),
            r is Ok <==> completed(since(old(self).transactions(), final(self).transactions())),
            r is Ok ==> final(buf)@ == final(self).transactions().last().reply.unwrap() + old(
                buf,
            )@.skip(data_length + 1),
            r is Ok ==> final(buf)@.subrange(1, data_length + 1) == window_data(
                final(self).transactions().last(),
            ),
            final(buf)@.len() == old(buf)@.len(),
            r is Err ==> final(buf)@ == old(buf)@,
    {
        let ghost t0 = self.transactions();
        let r = self.r_n(buf, RERXDATA, data_length);
        proof {
            if r is Ok {
                let ts = since(t0, self.transactions());
                assert(ts[0] == self.transactions().last());
                let reply = self.transactions().last().reply.unwrap();
                assert(reply.len() == data_length + 1) by {
                    assert(self.transactions()[self.transactions().len() - 1].reply is Some);
                }
                assert(buf@.subrange(1, data_length + 1) =~= reply.skip(1));
            }
        }
        r
    }

    /// Writes `buf[1..=data_length]` to the general-purpose SRAM at the
    /// controller's write pointer, in one transaction. `buf[0]` is reserved:
    /// it receives the opcode.
    pub fn write_txdat(&mut self, buf: &mut [u8], data_length: usize) -> (r: Result<
        (),
        SpiPortError,
    >)
        requires
            old(self).wf(),
            data_length < old(buf)@.len(),
        ensures
            final(self).wf(),
            performed(
                old(self).transactions(),
                final(self).transactions(),
                seq![txdat_frame(old(buf)@.subrange(1, data_length + 1))],
            ),
            r is Ok <==> completed(since(old(self).transactions(), final(self).transactions())),
            final(buf)@ == old(buf)@.update(0, WEGPDATA),
    {
        self.w_n(buf, WEGPDATA, data_length)
    }
}

} // verus!
