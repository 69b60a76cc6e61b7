use hdlc_ll::crc::HdlcCrcT;
use hdlc_ll::crc::crc_of;
use hdlc_ll::frame::ResultFlagsT;
use hdlc_ll::frame::ResultT;
use hdlc_ll::rx::Rx;
use hdlc_ll::rx::RxProcessor;
use hdlc_ll::tx::Tx;
use hdlc_ll::tx::TxProcessor;
use hdlc_ll::Hdlc;
use hdlc_ll::HdlcInitT;

#[test]
fn test_add() {
    assert_eq!(hdlc_ll::add(1, 2), 3);
}

#[test]
fn test_sub() {
    assert_eq!(hdlc_ll::sub(5, 4), 1);
}

struct TestRxProcessor {
    expected: Vec<u8>,
    counter: usize,
}

impl RxProcessor for TestRxProcessor {
    fn on_frame_read(&mut self, data: &[u8]) {
        self.counter += 1;
        assert_eq!(data.len(), self.expected.len(), "Special bytes mismatch");
        assert_eq!(data, &self.expected[..], "Arrays are not equal");
    }
}

struct TestTxProcessor {}

impl TxProcessor for TestTxProcessor {
    fn on_frame_send(&mut self, _data: &[u8]) {}
}

/// Records every delivered payload instead of checking a fixed one.
struct CollectingRxProcessor {
    frames: Vec<Vec<u8>>,
}

impl RxProcessor for CollectingRxProcessor {
    fn on_frame_read(&mut self, data: &[u8]) {
        self.frames.push(data.to_vec());
    }
}

#[test]
fn test_hdlc_send() {
    let mut tx_processor = TestTxProcessor {};
    let mut tx = Tx::new(HdlcCrcT::HdlcCrcOff);
    let data: [u8; 4] = [0x7F, 0x7E, 0x7D, 0x00];
    tx.put(&data);
    let mut out_buffer: Vec<u8> = vec![0; 10];
    let len = tx.run_tx(&mut out_buffer, &mut tx_processor);
    let expected: [u8; 8] = [0x7E, 0x7F, 0x7D, 0x5E, 0x7D, 0x5D, 0x00, 0x7E];
    assert_eq!(len, expected.len(), "Special bytes mismatch");
    assert_eq!(out_buffer[0..expected.len()], expected, "Arrays are not equal");

    tx.put(&data);
    let mut out_buf_short: Vec<u8> = vec![0; 5];
    let mut index = 0;
    while index < expected.len() {
        let len = tx.run_tx(&mut out_buf_short, &mut tx_processor);
        let expected_len = std::cmp::min(expected.len() - index, out_buf_short.len());
        assert_eq!(len, expected_len, "Length mismatch");
        assert_eq!(
            out_buf_short[0..len],
            expected[index..index + len],
            "Arrays are not equal"
        );
        index += len;
        if len == 0 {
            break;
        }
    }
}

#[test]
fn test_hdlc_recv() {
    let mut rx_processor = TestRxProcessor {
        expected: vec![0x7F, 0x7E, 0x7D, 0x00],
        counter: 0,
    };
    let buffer: Vec<u8> = vec![0; 10];
    let mut rx = Rx::new(buffer, HdlcCrcT::HdlcCrcOff, 0);
    let data_from_rx: [u8; 8] = [0x7E, 0x7F, 0x7D, 0x5E, 0x7D, 0x5D, 0x00, 0x7E];
    let mut error = ResultT::Error;
    let len = rx.run_rx(&data_from_rx, &mut error, &mut rx_processor);
    assert_eq!(len, data_from_rx.len(), "Length mismatch");
    assert_eq!(error, ResultT::Success, "Error mismatch");
    assert_eq!(rx_processor.counter, 1, "Data not received");
}

/// Drain a transmitter completely into one large buffer and return the
/// encoded bytes.
fn encode(crc: HdlcCrcT, payload: &[u8]) -> Vec<u8> {
    let mut p = TestTxProcessor {};
    let mut tx = Tx::new(crc);
    assert_eq!(tx.put(payload), ResultT::Success);
    let mut out: Vec<u8> = vec![0; 4 * payload.len() + 16];
    let n = tx.run_tx(&mut out, &mut p);
    out.truncate(n);
    out
}

/// Feed a stream to a receiver, re-feeding whatever a call leaves
/// unconsumed, and collect every status the receiver surfaced.
fn pump(rx: &mut Rx, p: &mut CollectingRxProcessor, stream: &[u8]) -> Vec<ResultT> {
    let mut statuses = Vec::new();
    let mut offset = 0;
    while offset < stream.len() {
        let mut error = ResultT::Success;
        let consumed = rx.run_rx(&stream[offset..], &mut error, p);
        statuses.push(error);
        offset += consumed;
        if consumed == 0 {
            break;
        }
    }
    statuses
}

fn round_trip_case(crc: HdlcCrcT, payload: &[u8]) {
    let encoded = encode(crc, payload);
    let mut p = CollectingRxProcessor { frames: Vec::new() };
    let mut rx = Rx::new(vec![0; 64], crc, 0);
    let statuses = pump(&mut rx, &mut p, &encoded);
    for s in statuses {
        assert_eq!(s, ResultT::Success);
    }
    assert_eq!(p.frames.len(), 1);
    assert_eq!(p.frames[0], payload.to_vec());
}

#[test]
fn round_trip_all_checksum_modes() {
    let payload: [u8; 9] = [0x7E, 0x7D, 0x31, 0x32, 0xFF, 0x00, 0x5E, 0x20, 0x7F];
    round_trip_case(HdlcCrcT::HdlcCrcOff, &payload);
    round_trip_case(HdlcCrcT::HdlcCrc8, &payload);
    round_trip_case(HdlcCrcT::HdlcCrc16, &payload);
    round_trip_case(HdlcCrcT::HdlcCrc32, &payload);
    round_trip_case(HdlcCrcT::HdlcCrc16, &[0x42]);
}

#[test]
fn fragmentation_byte_by_byte() {
    let payload: [u8; 5] = [0x11, 0x7E, 0x22, 0x7D, 0x33];
    let encoded = encode(HdlcCrcT::HdlcCrc16, &payload);

    let mut p = CollectingRxProcessor { frames: Vec::new() };
    let mut rx = Rx::new(vec![0; 32], HdlcCrcT::HdlcCrc16, 0);
    for b in &encoded {
        let chunk = [*b];
        let mut error = ResultT::Success;
        let consumed = rx.run_rx(&chunk, &mut error, &mut p);
        assert_eq!(consumed, 1);
        assert_eq!(error, ResultT::Success);
    }
    assert_eq!(p.frames.len(), 1);
    assert_eq!(p.frames[0], payload.to_vec());
}

#[test]
fn partial_output_small_buffers() {
    let payload: [u8; 7] = [0x01, 0x7E, 0x02, 0x7D, 0x03, 0xFF, 0x04];
    let whole = encode(HdlcCrcT::HdlcCrc32, &payload);

    let mut p = TestTxProcessor {};
    let mut tx = Tx::new(HdlcCrcT::HdlcCrc32);
    assert_eq!(tx.put(&payload), ResultT::Success);
    let mut collected: Vec<u8> = Vec::new();
    let mut out: Vec<u8> = vec![0; 5];
    loop {
        let n = tx.run_tx(&mut out, &mut p);
        if n == 0 {
            break;
        }
        collected.extend_from_slice(&out[0..n]);
    }
    assert_eq!(collected, whole);
}

#[test]
fn busy_rejection() {
    let mut p = TestTxProcessor {};
    let mut tx = Tx::new(HdlcCrcT::HdlcCrcOff);
    let payload: [u8; 4] = [1, 2, 3, 4];
    assert_eq!(tx.put(&payload), ResultT::Success);

    // Drain only part of the frame, then try to submit again.
    let mut tiny: Vec<u8> = vec![0; 2];
    let n = tx.run_tx(&mut tiny, &mut p);
    assert_eq!(n, 2);
    assert_eq!(tx.put(&payload), ResultT::Busy);

    // Finish the frame; afterwards a new submission is accepted.
    let mut rest: Vec<u8> = vec![0; 16];
    let n2 = tx.run_tx(&mut rest, &mut p);
    assert_eq!(n2, 4); // 6 wire bytes in all: flag, 4 raw bytes, flag
    assert_eq!(tx.put(&payload), ResultT::Success);
}

#[test]
fn empty_payload_is_noop() {
    let mut p = TestTxProcessor {};
    let mut tx = Tx::new(HdlcCrcT::HdlcCrc16);
    let empty: [u8; 0] = [];
    assert_eq!(tx.put(&empty), ResultT::Success);
    let mut out: Vec<u8> = vec![0; 8];
    assert_eq!(tx.run_tx(&mut out, &mut p), 0);
}

#[test]
fn corruption_resync() {
    let payload: [u8; 9] = [0x31, 0x32, 0x33, 0x34, 0x35, 0x36, 0x37, 0x38, 0x39];
    let mut encoded = encode(HdlcCrcT::HdlcCrc16, &payload);
    // CRC-16 of "123456789" is 0x29B1: the field bytes 0xB1 0x29 need
    // no stuffing, so they sit right before the closing flag.
    let n = encoded.len();
    assert_eq!(encoded[n - 3], 0xB1);
    encoded[n - 3] ^= 0x01;

    let mut p = CollectingRxProcessor { frames: Vec::new() };
    let mut rx = Rx::new(vec![0; 64], HdlcCrcT::HdlcCrc16, 0);
    let statuses = pump(&mut rx, &mut p, &encoded);
    assert!(statuses.contains(&ResultT::WrongCrc));
    assert_eq!(p.frames.len(), 0);

    // A valid frame right after is still decoded.
    let good = encode(HdlcCrcT::HdlcCrc16, &payload);
    let statuses2 = pump(&mut rx, &mut p, &good);
    for s in statuses2 {
        assert_eq!(s, ResultT::Success);
    }
    assert_eq!(p.frames.len(), 1);
    assert_eq!(p.frames[0], payload.to_vec());
}

#[test]
fn oversize_frame_rejected() {
    // MTU of 4 with no checksum: a 6-byte payload exceeds the slot.
    let mut p = CollectingRxProcessor { frames: Vec::new() };
    let mut rx = Rx::new(vec![0; 16], HdlcCrcT::HdlcCrcOff, 4);
    let big = encode(HdlcCrcT::HdlcCrcOff, &[1, 2, 3, 4, 5, 6]);
    let statuses = pump(&mut rx, &mut p, &big);
    assert!(statuses.contains(&ResultT::DataTooLarge));
    assert_eq!(p.frames.len(), 0);

    // The next well-formed frame still goes through.
    let good = encode(HdlcCrcT::HdlcCrcOff, &[7, 8, 9]);
    let statuses2 = pump(&mut rx, &mut p, &good);
    for s in statuses2 {
        assert_eq!(s, ResultT::Success);
    }
    assert_eq!(p.frames, vec![vec![7, 8, 9]]);
}

#[test]
fn short_frame_gives_wrong_crc() {
    // Two payload bytes cannot even hold a 32-bit checksum field.
    let mut p = CollectingRxProcessor { frames: Vec::new() };
    let mut rx = Rx::new(vec![0; 32], HdlcCrcT::HdlcCrc32, 0);
    let stream: [u8; 4] = [0x7E, 0x01, 0x02, 0x7E];
    let statuses = pump(&mut rx, &mut p, &stream);
    assert!(statuses.contains(&ResultT::WrongCrc));
    assert_eq!(p.frames.len(), 0);
}

#[test]
fn idle_filler_between_frames() {
    let payload: [u8; 3] = [0xAA, 0xBB, 0xCC];
    let frame = encode(HdlcCrcT::HdlcCrc8, &payload);
    let mut stream: Vec<u8> = vec![0xFF; 5];
    stream.extend_from_slice(&frame);
    stream.extend_from_slice(&[0xFF; 7]);
    stream.extend_from_slice(&frame);
    stream.extend_from_slice(&[0xFF; 3]);

    let mut p = CollectingRxProcessor { frames: Vec::new() };
    let mut rx = Rx::new(vec![0; 32], HdlcCrcT::HdlcCrc8, 0);
    let statuses = pump(&mut rx, &mut p, &stream);
    for s in statuses {
        assert_eq!(s, ResultT::Success);
    }
    assert_eq!(p.frames, vec![payload.to_vec(), payload.to_vec()]);
}

#[test]
fn back_to_back_flags_are_harmless() {
    let payload: [u8; 2] = [0x10, 0x20];
    let frame = encode(HdlcCrcT::HdlcCrcOff, &payload);
    let mut stream: Vec<u8> = vec![0x7E, 0x7E, 0x7E];
    stream.extend_from_slice(&frame);

    let mut p = CollectingRxProcessor { frames: Vec::new() };
    let mut rx = Rx::new(vec![0; 16], HdlcCrcT::HdlcCrcOff, 0);
    let statuses = pump(&mut rx, &mut p, &stream);
    for s in statuses {
        assert_eq!(s, ResultT::Success);
    }
    assert_eq!(p.frames, vec![payload.to_vec()]);
}

#[test]
fn checksum_check_values() {
    let data = b"123456789";
    assert_eq!(crc_of(HdlcCrcT::HdlcCrcOff, data), 0);
    assert_eq!(crc_of(HdlcCrcT::HdlcCrc8, data), 0xF4);
    assert_eq!(crc_of(HdlcCrcT::HdlcCrc16, data), 0x29B1);
    assert_eq!(crc_of(HdlcCrcT::HdlcCrc32, data), 0xCBF43926);
    assert_eq!(crc_of(HdlcCrcT::HdlcCrc16, b""), 0xFFFF);
}

#[test]
fn facade_round_trip_and_reset() {
    let mut hdlc = Hdlc::new(HdlcInitT {
        buf: vec![0; 32],
        crc_type: HdlcCrcT::HdlcCrc16,
        mtu: 0,
    });
    let payload: [u8; 3] = [9, 8, 7];
    assert_eq!(hdlc.put(&payload), ResultT::Success);
    assert_eq!(hdlc.put(&payload), ResultT::Busy);

    let mut txp = TestTxProcessor {};
    let mut out: Vec<u8> = vec![0; 32];
    let n = hdlc.tx.run_tx(&mut out, &mut txp);
    out.truncate(n);

    let mut p = CollectingRxProcessor { frames: Vec::new() };
    let mut error = ResultT::Success;
    let consumed = hdlc.rx.run_rx(&out, &mut error, &mut p);
    assert_eq!(consumed, out.len());
    assert_eq!(error, ResultT::Success);
    assert_eq!(p.frames, vec![payload.to_vec()]);

    // A reset of the transmit side only frees the in-flight slot.
    assert_eq!(hdlc.put(&payload), ResultT::Success);
    hdlc.reset(ResultFlagsT::ResetTxOnly);
    assert_eq!(hdlc.put(&payload), ResultT::Success);
    hdlc.reset(ResultFlagsT::ResetBoth);
    hdlc.close(&mut txp);
}

struct RecordingTxProcessor {
    sent: Vec<Vec<u8>>,
}

impl TxProcessor for RecordingTxProcessor {
    fn on_frame_send(&mut self, data: &[u8]) {
        self.sent.push(data.to_vec());
    }
}

#[test]
fn close_flushes_partial_frame() {
    let mut p = RecordingTxProcessor { sent: Vec::new() };
    let mut tx = Tx::new(HdlcCrcT::HdlcCrcOff);
    let payload: [u8; 4] = [1, 2, 3, 4];
    assert_eq!(tx.put(&payload), ResultT::Success);
    // Emit the opening flag and two payload bytes, then flush.
    let mut out: Vec<u8> = vec![0; 3];
    assert_eq!(tx.run_tx(&mut out, &mut p), 3);
    tx.close(&mut p);
    assert_eq!(p.sent, vec![vec![1, 2]]);
}

#[test]
fn facade_close_flushes_partial_frame() {
    let mut hdlc = Hdlc::new(HdlcInitT {
        buf: vec![0; 16],
        crc_type: HdlcCrcT::HdlcCrcOff,
        mtu: 0,
    });
    let payload: [u8; 4] = [5, 6, 7, 8];
    assert_eq!(hdlc.put(&payload), ResultT::Success);
    let mut p = RecordingTxProcessor { sent: Vec::new() };
    let mut out: Vec<u8> = vec![0; 4];
    assert_eq!(hdlc.tx.run_tx(&mut out, &mut p), 4);
    hdlc.close(&mut p);
    // Flag plus three payload bytes were emitted: the flush reports
    // the three consumed payload bytes.
    assert_eq!(p.sent, vec![vec![5, 6, 7]]);
}
