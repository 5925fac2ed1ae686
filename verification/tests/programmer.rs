use telink_sws::crc::crc_block;
use telink_sws::crc::crc_valid;
use telink_sws::error::IoError;
use telink_sws::tc32::TlsrSwsDebug;
use telink_sws::telink_sws::TelinkSws;
use telink_sws::transport::Io;

#[test]
fn crc_block_matches_tlsr_programmer_get_version_packet() {
    assert_eq!(
        crc_block(&[0x00, 0x00, 0x00, 0x00]),
        vec![0x00, 0x00, 0x00, 0x00, 0x00, 0x24]
    );
}

#[test]
fn crc_valid_accepts_framed_packet_and_rejects_corruption() {
    let packet = crc_block(&[0x07, 0xbc, 0x06, 0x00, 0x04, 0x00]);

    assert!(crc_valid(&packet));

    let mut corrupted = packet;
    corrupted[2] ^= 0x01;
    assert!(!crc_valid(&corrupted));
}

#[test]
fn flash_write_preserves_unwritten_sector_bytes() {
    let mut sector = vec![0xff; 4096];
    sector[0] = 0x11;
    sector[2] = 0x00;
    sector[3] = 0x00;
    sector[255] = 0x22;

    let io = MockIo::new(vec![
        response(0x01, &[0x00, 0x00], 2),
        response(0x01, &sector[0..1024], 1024),
        response(0x01, &sector[1024..2048], 1024),
        response(0x01, &sector[2048..3072], 1024),
        response(0x01, &sector[3072..4096], 1024),
        response(0x03, &[], 0),
        response(0x06, &[0x00], 1),
        response(0x02, &[], 256),
        response(0x06, &[0x00], 1),
    ]);
    let mut probe = TelinkSws::from_io_for_test(io);

    probe.write_sws_flash(0x1002, &[0xaa, 0xbb]).unwrap();

    let writes = probe.io().writes();
    assert_eq!(
        payload_without_crc(&writes[0]),
        vec![0x01, 0x02, 0x10, 0x00, 0x02, 0x00]
    );
    assert_eq!(
        payload_without_crc(&writes[1]),
        vec![0x01, 0x00, 0x10, 0x00, 0x00, 0x04]
    );
    assert_eq!(
        payload_without_crc(&writes[2]),
        vec![0x01, 0x00, 0x14, 0x00, 0x00, 0x04]
    );
    assert_eq!(
        payload_without_crc(&writes[3]),
        vec![0x01, 0x00, 0x18, 0x00, 0x00, 0x04]
    );
    assert_eq!(
        payload_without_crc(&writes[4]),
        vec![0x01, 0x00, 0x1c, 0x00, 0x00, 0x04]
    );
    assert_eq!(
        payload_without_crc(&writes[5]),
        vec![0x03, 0x00, 0x10, 0x00]
    );
    assert_eq!(
        payload_without_crc(&writes[6]),
        vec![0x06, 0x00, 0x00, 0x00]
    );

    let program = payload_without_crc(&writes[7]);
    assert_eq!(&program[..4], &[0x02, 0x00, 0x10, 0x00]);
    assert_eq!(program[4], 0x11);
    assert_eq!(program[4 + 2], 0xaa);
    assert_eq!(program[4 + 3], 0xbb);
    assert_eq!(program[4 + 255], 0x22);
}

#[test]
fn flash_write_programs_directly_when_no_erase_is_needed() {
    let io = MockIo::new(vec![
        response(0x01, &[0xff, 0xff], 2),
        response(0x02, &[], 2),
        response(0x06, &[0x00], 1),
    ]);
    let mut probe = TelinkSws::from_io_for_test(io);

    probe.write_sws_flash(0x1002, &[0xaa, 0xbb]).unwrap();

    let writes = probe.io().writes();
    assert_eq!(
        payload_without_crc(&writes[0]),
        vec![0x01, 0x02, 0x10, 0x00, 0x02, 0x00]
    );
    assert_eq!(
        payload_without_crc(&writes[1]),
        vec![0x02, 0x02, 0x10, 0x00, 0xaa, 0xbb]
    );
    assert_eq!(
        payload_without_crc(&writes[2]),
        vec![0x06, 0x00, 0x00, 0x00]
    );
}

#[test]
fn flash_write_skips_matching_direct_range() {
    let io = MockIo::new(vec![response(0x01, &[0xaa, 0xbb], 2)]);
    let mut probe = TelinkSws::from_io_for_test(io);

    probe.write_sws_flash(0x1002, &[0xaa, 0xbb]).unwrap();

    let writes = probe.io().writes();
    assert_eq!(writes.len(), 1);
    assert_eq!(
        payload_without_crc(&writes[0]),
        vec![0x01, 0x02, 0x10, 0x00, 0x02, 0x00]
    );
}

#[test]
fn full_sector_flash_write_erases_without_reading_sector() {
    let mut sector = vec![0xff; 4096];
    sector[0] = 0xaa;
    sector[4095] = 0xbb;

    let io = MockIo::new(vec![
        response(0x03, &[], 0),
        response(0x06, &[0x00], 1),
        response(0x02, &[], 256),
        response(0x06, &[0x00], 1),
        response(0x02, &[], 256),
        response(0x06, &[0x00], 1),
    ]);
    let mut probe = TelinkSws::from_io_for_test(io);

    probe.write_sws_flash(0x1000, &sector).unwrap();

    let writes = probe.io().writes();
    assert_eq!(
        payload_without_crc(&writes[0]),
        vec![0x03, 0x00, 0x10, 0x00]
    );
    assert_eq!(
        &payload_without_crc(&writes[2])[..4],
        &[0x02, 0x00, 0x10, 0x00]
    );
    assert_eq!(
        &payload_without_crc(&writes[4])[..4],
        &[0x02, 0x00, 0x1f, 0x00]
    );
}

#[test]
fn erase_all_flash_uses_programmer_command() {
    let io = MockIo::new(vec![response(0x04, &[], 0), response(0x06, &[0x00], 1)]);
    let mut probe = TelinkSws::from_io_for_test(io);

    probe.erase_sws_flash_all().unwrap();

    let writes = probe.io().writes();
    assert_eq!(
        payload_without_crc(&writes[0]),
        vec![0x04, 0x00, 0x00, 0x00]
    );
    assert_eq!(
        payload_without_crc(&writes[1]),
        vec![0x06, 0x00, 0x00, 0x00]
    );
}

#[test]
fn flash_write_after_erase_all_programs_without_reading_or_sector_erase() {
    let io = MockIo::new(vec![
        response(0x04, &[], 0),
        response(0x06, &[0x00], 1),
        response(0x02, &[], 2),
        response(0x06, &[0x00], 1),
    ]);
    let mut probe = TelinkSws::from_io_for_test(io);

    probe.erase_sws_flash_all().unwrap();
    probe.write_sws_flash(0x1002, &[0xaa, 0xbb]).unwrap();

    let writes = probe.io().writes();
    assert_eq!(
        payload_without_crc(&writes[0]),
        vec![0x04, 0x00, 0x00, 0x00]
    );
    assert_eq!(
        payload_without_crc(&writes[1]),
        vec![0x06, 0x00, 0x00, 0x00]
    );
    assert_eq!(
        payload_without_crc(&writes[2]),
        vec![0x02, 0x02, 0x10, 0x00, 0xaa, 0xbb]
    );
    assert_eq!(
        payload_without_crc(&writes[3]),
        vec![0x06, 0x00, 0x00, 0x00]
    );
}

#[test]
fn attach_retries_activation_with_reset_recovery() {
    let io = MockIo::new(vec![
        response(0x00, &[0, 0, 0x62, 0x55, 0, 0, 0, 0, 0, 0, 0, 0, 0], 13),
        response(0x00, &[0; 8], 0),
        response(0x00, &[0], 0),
        corrupted_response(0x00, &[], 0),
        response(0x00, &[0], 0),
        response(0x00, &[0], 0),
        response(0x00, &[], 0),
    ]);
    let mut probe = TelinkSws::from_io_for_test(io);
    probe.detach().unwrap();
    assert!(!probe.is_attached());

    probe.attach().unwrap();

    assert!(probe.is_attached());
    assert_eq!(probe.io().delays, vec![10]);
    let writes = probe.io().writes();
    assert_eq!(&payload_without_crc(&writes[0])[..2], &[0x00, 0x00]);
    assert_eq!(&payload_without_crc(&writes[1])[..2], &[0x00, 0x02]);
    assert_eq!(
        payload_without_crc(&writes[2]),
        vec![0x00, 0x03, 0x00, 0x00]
    );
    assert_eq!(&payload_without_crc(&writes[3])[..2], &[0x00, 0x04]);
    assert_eq!(
        payload_without_crc(&writes[4]),
        vec![0x00, 0x03, 0x01, 0x00]
    );
    assert_eq!(
        payload_without_crc(&writes[5]),
        vec![0x00, 0x03, 0x00, 0x00]
    );
    assert_eq!(&payload_without_crc(&writes[6])[..2], &[0x00, 0x04]);
}

#[test]
fn get_version_discards_leading_transport_ff() {
    let io = MockIo::new(vec![
        vec![0xff],
        response(0x00, &[0, 0, 0x62, 0x55, 0, 0, 0, 0, 0, 0, 0, 0, 0], 13),
    ]);
    let mut probe = TelinkSws::from_io_for_test(io);

    let version = probe.get_version().unwrap();

    assert_eq!(version[0], 0x00);
    assert_eq!(&version[4..8], &[0x00, 0x00, 0x62, 0x55]);
}

fn response(command: u8, payload: &[u8], written_count: u16) -> Vec<u8> {
    let mut response = vec![command, 0, written_count as u8, (written_count >> 8) as u8];
    response.extend_from_slice(payload);
    crc_block(&response)
}

fn corrupted_response(command: u8, payload: &[u8], written_count: u16) -> Vec<u8> {
    let mut packet = response(command, payload, written_count);
    let last = packet.len() - 1;
    packet[last] ^= 0x01;
    packet
}

fn payload_without_crc(packet: &[u8]) -> Vec<u8> {
    packet[..packet.len() - 2].to_vec()
}

struct MockIo {
    reads: Vec<u8>,
    writes: Vec<Vec<u8>>,
    delays: Vec<u64>,
}

impl MockIo {
    fn new(reads: Vec<Vec<u8>>) -> Self {
        Self {
            reads: reads.into_iter().flatten().collect(),
            writes: Vec::new(),
            delays: Vec::new(),
        }
    }

    fn writes(&self) -> &[Vec<u8>] {
        &self.writes
    }
}

impl Io for MockIo {
    fn read(&mut self, buf: &mut [u8]) -> Result<usize, IoError> {
        let len = buf.len().min(self.reads.len());
        buf[..len].copy_from_slice(&self.reads[..len]);
        self.reads.drain(..len);
        Ok(len)
    }

    fn write_all(&mut self, data: &[u8]) -> Result<(), IoError> {
        self.writes.push(data.to_vec());
        Ok(())
    }

    fn flush(&mut self) -> Result<(), IoError> {
        Ok(())
    }

    fn delay_ms(&mut self, millis: u64) {
        self.delays.push(millis);
    }
}
