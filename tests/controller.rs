use std::cell::RefCell;
use std::collections::{HashMap, VecDeque};
use std::rc::Rc;

use enc424j600::spi::{ChipSelect, SpiPortError, SpiTransfer};
use enc424j600::tx::TxPacket;
use enc424j600::{DelayUs, EthControllerError, SpiEth};

/// What the mock saw on the bus.
#[derive(Debug, Clone, PartialEq, Eq)]
enum Ev {
    Low,
    High,
    Xfer(Vec<u8>),
}

/// A controller that answers over SPI from a register file, with queues of
/// scripted answers per register and for the RX data window.
#[derive(Default)]
struct Chip {
    events: Vec<Ev>,
    regs: HashMap<u8, u8>,
    reads: HashMap<u8, VecDeque<u8>>,
    rx_data: VecDeque<u8>,
    tx_data: Vec<Vec<u8>>,
    fail_after: Option<usize>,
    txrts_sticks: bool,
    delays: Vec<u16>,
    delay_at: Vec<usize>,
}

type Shared = Rc<RefCell<Chip>>;

struct MockSpi(Shared);
struct MockCs(Shared);
struct MockDelay(Shared);

impl SpiTransfer for MockSpi {
    fn transfer(&mut self, words: &mut [u8]) -> Result<(), SpiPortError> {
        let mut c = self.0.borrow_mut();
        c.events.push(Ev::Xfer(words.to_vec()));
        if let Some(n) = c.fail_after {
            if n == 0 {
                return Err(SpiPortError::TransferError);
            }
            c.fail_after = Some(n - 1);
        }
        match words[0] {
            0x20 => {
                let addr = words[1];
                let scripted = c.reads.get_mut(&addr).and_then(|q| q.pop_front());
                words[2] = match scripted {
                    Some(v) => v,
                    None => *c.regs.get(&addr).unwrap_or(&0),
                };
            }
            0x22 => {
                let (addr, data) = (words[1], words[2]);
                // TXRTS clears once the frame is out, unless told otherwise.
                let data = if addr == 0x1e && !c.txrts_sticks { data & !0x02 } else { data };
                c.regs.insert(addr, data);
            }
            0x2c => {
                for w in words[1..].iter_mut() {
                    *w = c.rx_data.pop_front().unwrap_or(0);
                }
            }
            0x2a => {
                let data = words[1..].to_vec();
                c.tx_data.push(data);
            }
            _ => {}
        }
        Ok(())
    }
}

impl ChipSelect for MockCs {
    fn set_low(&mut self) {
        self.0.borrow_mut().events.push(Ev::Low);
    }

    fn set_high(&mut self) {
        self.0.borrow_mut().events.push(Ev::High);
    }
}

impl DelayUs for MockDelay {
    fn delay_us(&mut self, us: u16) {
        let mut c = self.0.borrow_mut();
        let done = c.events.iter().filter(|e| matches!(e, Ev::Xfer(_))).count();
        c.delays.push(us);
        c.delay_at.push(done);
    }
}

fn controller() -> (SpiEth<MockSpi, MockCs>, Shared) {
    let chip: Shared = Rc::new(RefCell::new(Chip::default()));
    let eth = SpiEth::new(MockSpi(chip.clone()), MockCs(chip.clone()));
    (eth, chip)
}

/// The transfers seen, without the chip-select events.
fn transfers(chip: &Shared) -> Vec<Vec<u8>> {
    chip.borrow()
        .events
        .iter()
        .filter_map(|e| match e {
            Ev::Xfer(b) => Some(b.clone()),
            _ => None,
        })
        .collect()
}

fn wr(addr: u8, data: u8) -> Vec<u8> {
    vec![0x22, addr, data]
}

fn rd(addr: u8) -> Vec<u8> {
    vec![0x20, addr, 0]
}

fn script_reads(chip: &Shared, addr: u8, values: &[u8]) {
    chip.borrow_mut().reads.entry(addr).or_default().extend(values.iter().copied());
}

/// Every transfer has chip-select low just before it and high just after.
fn assert_framed(chip: &Shared) {
    let ev = chip.borrow().events.clone();
    assert_eq!(ev[0], Ev::High);
    assert_eq!((ev.len() - 1) % 3, 0);
    for w in ev[1..].chunks(3) {
        assert_eq!(w[0], Ev::Low);
        assert!(matches!(w[1], Ev::Xfer(_)));
        assert_eq!(w[2], Ev::High);
    }
}

fn packet_of(bytes: &[u8]) -> TxPacket {
    let mut p = TxPacket::new();
    p.update_frame(bytes, bytes.len());
    p
}

#[test]
fn register_writes_are_framed_by_chip_select() {
    let (mut eth, chip) = controller();
    eth.init_txbuf().ok().unwrap();
    eth.init_rxbuf().ok().unwrap();
    eth.set_promiscuous().ok().unwrap();
    assert_framed(&chip);
    assert_eq!(transfers(&chip).len(), 2 + 10 + 2);
}

#[test]
fn failed_transfer_releases_chip_select() {
    let (mut eth, chip) = controller();
    chip.borrow_mut().fail_after = Some(1);
    let r = eth.init_txbuf();
    assert!(matches!(r, Err(EthControllerError::SpiPortError)));
    assert_framed(&chip);
    // The second write failed, and nothing was tried after it.
    assert_eq!(transfers(&chip), vec![wr(0x88, 0x00), wr(0x89, 0x00)]);
}

#[test]
fn write_16b_sends_low_byte_then_high_byte() {
    let chip: Shared = Rc::new(RefCell::new(Chip::default()));
    let mut port = enc424j600::spi::SpiPort::new(MockSpi(chip.clone()), MockCs(chip.clone()));
    port.write_reg_16b(0x16, 0xabcd).ok().unwrap();
    assert_eq!(transfers(&chip), vec![wr(0x16, 0xcd), wr(0x17, 0xab)]);
    assert_framed(&chip);
}

#[test]
fn read_16b_combines_little_endian() {
    let chip: Shared = Rc::new(RefCell::new(Chip::default()));
    let mut port = enc424j600::spi::SpiPort::new(MockSpi(chip.clone()), MockCs(chip.clone()));
    script_reads(&chip, 0x1a, &[0x34]);
    script_reads(&chip, 0x1b, &[0x12]);
    let v = port.read_reg_16b(0x1a).ok().unwrap();
    assert_eq!(v, 0x1234);
    assert_eq!(transfers(&chip), vec![rd(0x1a), rd(0x1b)]);
    assert_eq!(port.read_reg_8b(0x1a).ok().unwrap(), 0);
}

#[test]
fn data_windows_carry_the_opcode_first() {
    let chip: Shared = Rc::new(RefCell::new(Chip::default()));
    let mut port = enc424j600::spi::SpiPort::new(MockSpi(chip.clone()), MockCs(chip.clone()));
    chip.borrow_mut().rx_data.extend([7u8, 8, 9]);
    let mut buf = [0xffu8; 5];
    port.read_rxdat(&mut buf, 3).ok().unwrap();
    assert_eq!(&buf[1..4], &[7, 8, 9]);
    assert_eq!(buf[4], 0xff);
    let mut out = [0u8, 1, 2, 3, 4];
    port.write_txdat(&mut out, 3).ok().unwrap();
    assert_eq!(out[0], 0x2a);
    assert_eq!(transfers(&chip), vec![vec![0x2c, 0, 0, 0], vec![0x2a, 1, 2, 3]]);
}

#[test]
fn scenario_device_bring_up() {
    let (mut eth, chip) = controller();
    script_reads(&chip, 0x16, &[0x34, 0x00]);
    script_reads(&chip, 0x17, &[0x12, 0x00]);
    script_reads(&chip, 0x1a, &[0x00]);
    script_reads(&chip, 0x1b, &[0x10]);
    let mut delay = MockDelay(chip.clone());
    assert!(eth.init_dev(&mut delay).is_ok());
    assert_eq!(
        transfers(&chip),
        vec![
            wr(0x16, 0x34),
            wr(0x17, 0x12),
            rd(0x16),
            rd(0x17),
            rd(0x1a),
            rd(0x1b),
            rd(0x6e),
            wr(0x6e, 0x10),
            rd(0x16),
            rd(0x17),
        ]
    );
    assert_eq!(chip.borrow().delays, vec![25, 256]);
    // 25 us after the ETHRST write, 256 us after the final EUDAST read.
    assert_eq!(chip.borrow().delay_at, vec![8, 10]);
}

#[test]
fn bring_up_waits_for_clock_ready() {
    let (mut eth, chip) = controller();
    script_reads(&chip, 0x16, &[0x34, 0x00]);
    script_reads(&chip, 0x17, &[0x12, 0x00]);
    script_reads(&chip, 0x1a, &[0x00, 0x00, 0x00]);
    script_reads(&chip, 0x1b, &[0x00, 0x00, 0x10]);
    script_reads(&chip, 0x6e, &[0x81]);
    let mut delay = MockDelay(chip.clone());
    assert!(eth.init_dev(&mut delay).is_ok());
    let t = transfers(&chip);
    assert_eq!(t.len(), 4 + 6 + 4);
    // ETHRST set, other bits kept.
    assert_eq!(t[11], wr(0x6e, 0x91));
}

#[test]
fn scenario_bring_up_fails_sanity() {
    let (mut eth, chip) = controller();
    script_reads(&chip, 0x16, &[0x00]);
    script_reads(&chip, 0x17, &[0x00]);
    let mut delay = MockDelay(chip.clone());
    assert!(matches!(eth.init_dev(&mut delay), Err(EthControllerError::GeneralError)));
    let t = transfers(&chip);
    assert_eq!(t.len(), 4);
    assert!(!t.contains(&wr(0x6e, 0x10)));
    assert!(chip.borrow().delays.is_empty());
}

#[test]
fn bring_up_fails_when_reset_leaves_scratch() {
    let (mut eth, chip) = controller();
    script_reads(&chip, 0x16, &[0x34, 0x01]);
    script_reads(&chip, 0x17, &[0x12, 0x00]);
    script_reads(&chip, 0x1b, &[0x10]);
    let mut delay = MockDelay(chip.clone());
    assert!(matches!(eth.init_dev(&mut delay), Err(EthControllerError::GeneralError)));
    assert_eq!(chip.borrow().delays, vec![25]);
}

#[test]
fn bring_up_times_out_without_clock() {
    let (mut eth, chip) = controller();
    script_reads(&chip, 0x16, &[0x34]);
    script_reads(&chip, 0x17, &[0x12]);
    let mut delay = MockDelay(chip.clone());
    assert!(matches!(eth.init_dev(&mut delay), Err(EthControllerError::Timeout)));
    assert_eq!(transfers(&chip).len(), 4 + 2 * enc424j600::POLL_LIMIT as usize);
    assert!(chip.borrow().delays.is_empty());
}

#[test]
fn init_rxbuf_sets_ring_and_enables_reception() {
    let (mut eth, chip) = controller();
    chip.borrow_mut().regs.insert(0x1e, 0x80);
    chip.borrow_mut().regs.insert(0x1f, 0x02);
    eth.init_rxbuf().ok().unwrap();
    let c = chip.borrow();
    assert_eq!((c.regs[&0x04], c.regs[&0x05]), (0x40, 0x53));
    assert_eq!((c.regs[&0x06], c.regs[&0x07]), (0xfe, 0x5f));
    assert_eq!((c.regs[&0x4a], c.regs[&0x4b]), (0x00, 0x10));
    assert_eq!(c.regs[&0x1e], 0x81);
    assert_eq!(c.regs[&0x1f], 0x02);
}

#[test]
fn init_txbuf_zeroes_write_pointer() {
    let (mut eth, chip) = controller();
    eth.init_txbuf().ok().unwrap();
    assert_eq!(transfers(&chip), vec![wr(0x88, 0), wr(0x89, 0)]);
}

fn queue_packet(chip: &Shared, next: u16, payload: &[u8]) {
    let mut c = chip.borrow_mut();
    c.rx_data.extend([(next & 0xff) as u8, (next >> 8) as u8]);
    let len = payload.len();
    c.rx_data.extend([(len & 0xff) as u8, (len >> 8) as u8, 0, 0, 0, 0]);
    c.rx_data.extend(payload.iter().copied());
}

#[test]
fn scenario_receive_one_64_byte_frame() {
    let (mut eth, chip) = controller();
    script_reads(&chip, 0x1c, &[0x40]);
    let mut payload = vec![0xde, 0xad, 0xbe, 0xef];
    payload.extend((4..64).map(|i| i as u8));
    queue_packet(&chip, 0x5388, &payload);
    let p = eth.receive_next(false).ok().unwrap();
    assert_eq!(p.get_frame_length(), 64);
    for (i, b) in payload.iter().enumerate() {
        assert_eq!(p.get_frame_byte(i), *b);
    }
    assert_eq!(p.read_raw_rsv(), &[0x40, 0, 0, 0, 0, 0]);
    let t = transfers(&chip);
    assert_eq!(t[2], wr(0x8a, 0x40));
    assert_eq!(t[3], wr(0x8b, 0x53));
    assert_eq!(t[4], vec![0x2c, 0, 0]);
    assert_eq!(t[5].len(), 7);
    assert_eq!(t[6].len(), 65);
    assert_eq!(t[7], wr(0x06, 0x86));
    assert_eq!(t[8], wr(0x07, 0x53));
    assert_eq!(t[9], rd(0x1f));
    assert_eq!(t[10], wr(0x1f, 0x01));
    assert_eq!(t.len(), 11);
}

#[test]
fn scenario_receive_when_wrap_occurs() {
    let (mut eth, chip) = controller();
    script_reads(&chip, 0x1c, &[0x40]);
    queue_packet(&chip, 0x5340, &[1, 2, 3, 4]);
    let p = eth.receive_next(false).ok().unwrap();
    assert_eq!(p.get_frame_length(), 4);
    let t = transfers(&chip);
    assert_eq!(t[7], wr(0x06, 0xfe));
    assert_eq!(t[8], wr(0x07, 0x5f));
}

#[test]
fn receive_follows_injected_next_pointers() {
    let (mut eth, chip) = controller();
    script_reads(&chip, 0x1c, &[0x40, 0x40, 0x40]);
    queue_packet(&chip, 0x5400, &[1; 10]);
    queue_packet(&chip, 0x5500, &[2; 20]);
    queue_packet(&chip, 0x5340, &[3; 30]);
    eth.receive_next(false).ok().unwrap();
    eth.receive_next(false).ok().unwrap();
    let p = eth.receive_next(false).ok().unwrap();
    assert_eq!(p.get_frame_length(), 30);
    let t = transfers(&chip);
    // Each receive points ERXRDPT at the pointer the previous one read.
    assert_eq!(t[2..4], [wr(0x8a, 0x40), wr(0x8b, 0x53)]);
    assert_eq!(t[13..15], [wr(0x8a, 0x00), wr(0x8b, 0x54)]);
    assert_eq!(t[24..26], [wr(0x8a, 0x00), wr(0x8b, 0x55)]);
    assert_eq!(t[18..20], [wr(0x06, 0xfe), wr(0x07, 0x54)]);
    assert_eq!(t[29..31], [wr(0x06, 0xfe), wr(0x07, 0x5f)]);
}

#[test]
fn receive_without_packet_reports_none_waiting() {
    let (mut eth, chip) = controller();
    script_reads(&chip, 0x1c, &[0x00]);
    assert!(matches!(eth.receive_next(false), Err(EthControllerError::NoRxPacketError)));
    assert_eq!(transfers(&chip), vec![rd(0x1c), rd(0x1d)]);
}

#[test]
fn polling_receive_waits_for_packet() {
    let (mut eth, chip) = controller();
    script_reads(&chip, 0x1c, &[0x00, 0x00, 0x40]);
    queue_packet(&chip, 0x5388, &[9; 8]);
    let p = eth.receive_next(true).ok().unwrap();
    assert_eq!(p.get_frame_length(), 8);
    assert_eq!(transfers(&chip).len(), 6 + 9);
}

#[test]
fn receive_rejects_oversized_frame() {
    let (mut eth, chip) = controller();
    script_reads(&chip, 0x1c, &[0x40]);
    chip.borrow_mut().rx_data.extend([0x88, 0x53, 0x01, 0x10, 0, 0, 0, 0]);
    assert!(matches!(eth.receive_next(false), Err(EthControllerError::GeneralError)));
    assert_eq!(transfers(&chip).len(), 6);
}

#[test]
fn scenario_send_64_byte_arp_frame() {
    let (mut eth, chip) = controller();
    let frame: Vec<u8> = (0..64).map(|i| i as u8).collect();
    let p = packet_of(&frame);
    eth.send_raw_packet(&p).ok().unwrap();
    let t = transfers(&chip);
    assert_eq!(t[0], wr(0x88, 0x01));
    assert_eq!(t[1], wr(0x89, 0x00));
    let mut data = vec![0x2a];
    data.extend(frame.iter().copied());
    assert_eq!(t[2], data);
    assert_eq!(t[3], wr(0x00, 0x01));
    assert_eq!(t[4], wr(0x01, 0x00));
    assert_eq!(t[5], wr(0x02, 0x40));
    assert_eq!(t[6], wr(0x03, 0x00));
    assert_eq!(t[7], rd(0x1e));
    assert_eq!(t[8], wr(0x1e, 0x02));
    assert_eq!(t[9], rd(0x1e));
    assert_eq!(t.len(), 10);
    assert_eq!(chip.borrow().tx_data, vec![frame]);
    // The next frame goes right after this one.
    eth.send_raw_packet(&p).ok().unwrap();
    assert_eq!(transfers(&chip)[10], wr(0x88, 0x41));
}

#[test]
fn tx_cursor_wraps_at_end_of_buffer() {
    let (mut eth, chip) = controller();
    let big = packet_of(&[0u8; 4096]);
    let mut total: u32 = 0;
    for _ in 0..6 {
        eth.send_raw_packet(&big).ok().unwrap();
        total += 4096;
    }
    let small = packet_of(&[1u8; 100]);
    eth.send_raw_packet(&small).ok().unwrap();
    total += 100;
    let expected = ((1 + total) % 0x5340) as u16;
    let before = transfers(&chip).len();
    eth.send_raw_packet(&small).ok().unwrap();
    let t = transfers(&chip);
    assert_eq!(t[before], wr(0x88, (expected & 0xff) as u8));
    assert_eq!(t[before + 1], wr(0x89, (expected >> 8) as u8));
}

#[test]
fn send_times_out_when_txrts_stays_set() {
    let (mut eth, chip) = controller();
    chip.borrow_mut().txrts_sticks = true;
    let p = packet_of(&[5u8; 10]);
    assert!(matches!(eth.send_raw_packet(&p), Err(EthControllerError::Timeout)));
    assert_eq!(transfers(&chip).len(), 9 + enc424j600::POLL_LIMIT as usize);
    // The cursor did not move.
    chip.borrow_mut().txrts_sticks = false;
    eth.send_raw_packet(&p).ok().unwrap();
    let t = transfers(&chip);
    assert_eq!(t[9 + enc424j600::POLL_LIMIT as usize], wr(0x88, 0x01));
}

#[test]
fn set_promiscuous_keeps_reserved_bits() {
    let (mut eth, chip) = controller();
    chip.borrow_mut().regs.insert(0x34, 0xff);
    eth.set_promiscuous().ok().unwrap();
    assert_eq!(transfers(&chip), vec![rd(0x34), wr(0x34, 0xff)]);
    let (mut eth, chip) = controller();
    chip.borrow_mut().regs.insert(0x34, 0x80);
    eth.set_promiscuous().ok().unwrap();
    assert_eq!(transfers(&chip), vec![rd(0x34), wr(0x34, (0x80 & 0b1010_0001) | 0b0101_1110)]);
}

#[test]
fn scenario_promiscuous_then_mac_read() {
    let (mut eth, chip) = controller();
    {
        let mut c = chip.borrow_mut();
        for (a, v) in [(0x64u8, 0x08u8), (0x65, 0x60), (0x62, 0x6e), (0x63, 0x44), (0x60, 0x42), (0x61, 0x95)] {
            c.regs.insert(a, v);
        }
    }
    eth.set_promiscuous().ok().unwrap();
    let mut m = [0u8; 6];
    eth.read_from_mac(&mut m).ok().unwrap();
    assert_eq!(m, [0x08, 0x60, 0x6e, 0x44, 0x42, 0x95]);
    assert_eq!(chip.borrow().regs[&0x34], 0x5e);
}

#[test]
fn device_receive_copies_frame_to_rx_buffer() {
    let (eth, chip) = controller();
    let mut dev = enc424j600::smoltcp_phy::SmoltcpDevice::new(eth);
    assert_eq!(dev.max_transmission_unit(), 4096);
    script_reads(&chip, 0x1c, &[0x00, 0x40]);
    assert_eq!(dev.receive(), None);
    queue_packet(&chip, 0x5388, &[0xaa, 0xbb, 0xcc]);
    assert_eq!(dev.receive(), Some(3));
    assert_eq!(&dev.rx_buffer()[..3], &[0xaa, 0xbb, 0xcc]);
}

#[test]
fn device_transmit_sends_tx_buffer_prefix() {
    let (eth, chip) = controller();
    let mut dev = enc424j600::smoltcp_phy::SmoltcpDevice::new(eth);
    dev.tx_buffer()[..4].copy_from_slice(&[1, 2, 3, 4]);
    dev.transmit(3).ok().unwrap();
    assert_eq!(chip.borrow().tx_data, vec![vec![1, 2, 3]]);
    chip.borrow_mut().fail_after = Some(0);
    assert!(matches!(dev.transmit(3), Err(EthControllerError::SpiPortError)));
    assert_framed(&chip);
}
