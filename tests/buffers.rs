use enc424j600::rx::{RxBuffer, RxPacket, ERXST_DEFAULT, ERXTAIL_DEFAULT, RX_MAX_ADDRESS};
use enc424j600::tx::{TxBuffer, TxPacket, GPBUFEN_DEFAULT, GPBUFST_DEFAULT};
use enc424j600::RAW_FRAME_LENGTH_MAX;

#[test]
fn rx_buffer_starts_at_ring_defaults() {
    let mut b = RxBuffer::new();
    assert_eq!(b.get_wrap_addr(), 0x5340);
    assert_eq!(b.get_next_addr(), ERXST_DEFAULT);
    assert_eq!(b.get_tail_addr(), ERXTAIL_DEFAULT);
    assert_eq!(RX_MAX_ADDRESS, 0x5fff);
    b.set_next_addr(0x5400);
    b.set_tail_addr(0x53fe);
    b.set_wrap_addr(0x5000);
    assert_eq!((b.get_wrap_addr(), b.get_next_addr(), b.get_tail_addr()), (0x5000, 0x5400, 0x53fe));
}

#[test]
fn tx_buffer_starts_after_first_byte() {
    let mut b = TxBuffer::new();
    assert_eq!(b.get_next_addr(), 0x0001);
    assert_eq!(b.get_wrap_addr(), GPBUFST_DEFAULT);
    assert_eq!(b.get_tail_addr(), GPBUFST_DEFAULT);
    assert_eq!(GPBUFEN_DEFAULT, 0x5340);
    b.set_next_addr(0x41);
    b.set_wrap_addr(2);
    b.set_tail_addr(3);
    assert_eq!((b.get_wrap_addr(), b.get_next_addr(), b.get_tail_addr()), (2, 0x41, 3));
}

#[test]
fn rsv_gives_frame_length_little_endian() {
    let mut p = RxPacket::new();
    assert_eq!(p.get_frame_length(), 0);
    p.write_to_rsv(&[0x34, 0x12, 9, 8, 7, 6, 5]);
    assert_eq!(p.get_frame_length(), 0);
    p.update_frame_length();
    assert_eq!(p.get_frame_length(), 0x1234);
    assert_eq!(p.read_raw_rsv(), &[0x34, 0x12, 9, 8, 7, 6]);
    p.write_to_rsv(&[0xff, 0xff, 0, 0, 0, 0]);
    p.update_frame_length();
    assert_eq!(p.get_frame_length(), 0xffff);
}

#[test]
fn rx_frame_takes_frame_length_bytes() {
    let mut p = RxPacket::new();
    p.write_to_rsv(&[3, 0, 0, 0, 0, 0]);
    p.update_frame_length();
    p.write_to_frame(&[7, 8, 9, 10]);
    assert_eq!((p.get_frame_byte(0), p.get_frame_byte(1), p.get_frame_byte(2)), (7, 8, 9));
    assert_eq!(p.get_frame_byte(3), 0);
    let mut out = [0xeeu8; 5];
    p.write_frame_to(&mut out);
    assert_eq!(out, [7, 8, 9, 0xee, 0xee]);
}

#[test]
fn tx_packet_stages_frame() {
    let mut p = TxPacket::new();
    assert_eq!(p.get_frame_length(), 0);
    assert_eq!(p.get_frame().len(), RAW_FRAME_LENGTH_MAX);
    p.update_frame(&[1, 2, 3, 4, 5], 3);
    assert_eq!(p.get_frame_length(), 3);
    assert_eq!(&p.get_frame()[..4], &[1, 2, 3, 0]);
    assert_eq!(p.get_frame_byte(2), 3);
    let mut out = [9u8; 4];
    p.write_frame_to(&mut out);
    assert_eq!(out, [1, 2, 3, 9]);
    p.get_mut_frame()[3] = 42;
    assert_eq!(p.get_frame_byte(3), 42);
    assert_eq!(p.get_frame_length(), 3);
}

#[test]
fn tx_packet_holds_largest_frame() {
    let mut p = TxPacket::new();
    let big = vec![0x5au8; RAW_FRAME_LENGTH_MAX];
    p.update_frame(&big, RAW_FRAME_LENGTH_MAX);
    assert_eq!(p.get_frame_length(), 4096);
    assert_eq!(p.get_frame_byte(4095), 0x5a);
}

#[test]
fn error_from_spi_error() {
    let e: enc424j600::EthControllerError = enc424j600::spi::SpiPortError::TransferError.into();
    assert_eq!(e, enc424j600::EthControllerError::SpiPortError);
}
