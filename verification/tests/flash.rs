use telink_sws::crc::crc_block;
use telink_sws::crc::crc_valid;
use telink_sws::error::DebugProbeError;
use telink_sws::error::IoError;
use telink_sws::tc32::TlsrSwsDebug;
use telink_sws::telink_sws::TelinkSws;
use telink_sws::transport::Io;

/// A programmer with a flash chip behind it.
struct Chip {
    content: Vec<u8>,
    pending: Vec<u8>,
    commands: Vec<u8>,
    fail_at: Option<usize>,
}

impl Chip {
    fn new(content: Vec<u8>) -> Chip {
        Chip {
            content,
            pending: Vec::new(),
            commands: Vec::new(),
            fail_at: None,
        }
    }

    fn count(&self, command: u8) -> usize {
        self.commands.iter().filter(|c| **c == command).count()
    }

    fn answer(&mut self, request: &[u8]) {
        let at = usize::from(request[1]) + 256 * usize::from(request[2])
            + 65536 * usize::from(request[3]);
        let mut reply = vec![request[0], 0, 0, 0];
        match request[0] {
            1 => {
                let len = usize::from(request[4]) + 256 * usize::from(request[5]);
                reply.extend_from_slice(&self.content[at..at + len]);
            }
            2 => {
                let data = &request[4..];
                assert!(at % 256 + data.len() <= 256);
                assert!(data.iter().any(|byte| *byte != 0xff));
                for (i, byte) in data.iter().enumerate() {
                    self.content[at + i] &= byte;
                }
                reply[2] = data.len() as u8;
                reply[3] = (data.len() >> 8) as u8;
            }
            3 => {
                let start = at - at % 4096;
                self.content[start..start + 4096].fill(0xff);
            }
            4 => self.content.fill(0xff),
            6 => {
                reply[2] = 1;
                reply.push(0);
            }
            _ => unreachable!(),
        }
        self.pending.extend(crc_block(&reply));
    }
}

impl Io for Chip {
    fn read(&mut self, buf: &mut [u8]) -> Result<usize, IoError> {
        let len = buf.len().min(self.pending.len()).min(100);
        buf[..len].copy_from_slice(&self.pending[..len]);
        self.pending.drain(..len);
        Ok(len)
    }

    fn write_all(&mut self, data: &[u8]) -> Result<(), IoError> {
        assert!(crc_valid(data));
        self.commands.push(data[0]);
        if self.fail_at == Some(self.commands.len()) {
            return Ok(());
        }
        let request = data[..data.len() - 2].to_vec();
        self.answer(&request);
        Ok(())
    }

    fn flush(&mut self) -> Result<(), IoError> {
        Ok(())
    }

    fn delay_ms(&mut self, _millis: u64) {}
}

fn pattern(len: usize, seed: u32) -> Vec<u8> {
    let mut state = seed;
    (0..len)
        .map(|_| {
            state = state.wrapping_mul(1664525).wrapping_add(1013904223);
            (state >> 24) as u8
        })
        .collect()
}

fn expect(mut content: Vec<u8>, at: usize, data: &[u8]) -> Vec<u8> {
    content[at..at + data.len()].copy_from_slice(data);
    content
}

#[test]
fn a_write_changes_just_its_range() {
    for (at, len) in [
        (0, 1),
        (4095, 2),
        (100, 5000),
        (4096, 4096),
        (4000, 8300),
        (0, 16384),
        (8191, 0),
        (16383, 1),
    ] {
        let before = pattern(16384, 7);
        let data = pattern(len, 99);
        let mut probe = TelinkSws::from_io_for_test(Chip::new(before.clone()));
        probe.write_sws_flash(at as u32, &data).unwrap();
        assert_eq!(probe.io().content, expect(before, at, &data));

        let mut back = vec![0; len];
        probe.read_sws_flash_range(at as u32, &mut back).unwrap();
        assert_eq!(back, data);
    }
}

#[test]
fn writes_after_an_erase_just_program() {
    let mut probe = TelinkSws::from_io_for_test(Chip::new(pattern(16384, 3)));
    probe.erase_sws_flash_all().unwrap();
    assert_eq!(probe.io().content, vec![0xff; 16384]);
    let first = pattern(3000, 4);
    let second = pattern(5000, 5);
    probe.write_sws_flash(0x80, &first).unwrap();
    probe.write_sws_flash(0x80 + 3000, &second).unwrap();
    assert_eq!(probe.io().count(1), 0);
    assert_eq!(probe.io().count(3), 0);
    let content = expect(vec![0xff; 16384], 0x80, &first);
    let content = expect(content, 0x80 + 3000, &second);
    assert_eq!(probe.io().content, content);

    let third = pattern(100, 6);
    probe.write_sws_flash(0x90, &third).unwrap();
    assert_eq!(probe.io().count(3), 1);
    assert_eq!(probe.io().content, expect(content, 0x90, &third));
}

#[test]
fn a_matching_write_just_reads() {
    let content = pattern(16384, 8);
    let mut probe = TelinkSws::from_io_for_test(Chip::new(content.clone()));
    probe.write_sws_flash(100, &content[100..8100]).unwrap();
    assert_eq!(probe.io().count(1), probe.io().commands.len());
    assert_eq!(probe.io().count(1), 4 + 4);
    assert_eq!(probe.io().content, content);
}

#[test]
fn blank_parts_of_pages_are_not_programmed() {
    let mut probe = TelinkSws::from_io_for_test(Chip::new(vec![0; 8192]));
    let mut data = vec![0xff; 4096];
    data[300] = 0x12;
    probe.write_sws_flash(4096, &data).unwrap();
    assert_eq!(probe.io().commands, vec![3, 6, 2, 6]);
    assert_eq!(&probe.io().content[4096..], &data[..]);
}

#[test]
fn a_second_write_just_reads() {
    for erase in [false, true] {
        let mut probe = TelinkSws::from_io_for_test(Chip::new(pattern(16384, 30)));
        if erase {
            probe.erase_sws_flash_all().unwrap();
        }
        let data = pattern(6000, 31);
        probe.write_sws_flash(1000, &data).unwrap();
        let done = probe.io().commands.len();
        probe.write_sws_flash(1000, &data).unwrap();
        assert_eq!(probe.io().commands[done..], [1; 4 + 3]);
        assert!(!probe.can_assume_flash_range_erased(1000, 6000));
    }
}

#[test]
fn programming_clears_bits() {
    let before = pattern(8192, 20);
    let data = pattern(1000, 21);
    let mut probe = TelinkSws::from_io_for_test(Chip::new(before.clone()));
    probe.program_sws_flash_range(3900, &data).unwrap();
    for (i, byte) in before.iter().enumerate() {
        let expected = if (3900..4900).contains(&i) {
            byte & data[i - 3900]
        } else {
            *byte
        };
        assert_eq!(probe.io().content[i], expected);
    }
}

#[test]
fn only_an_erased_sector_ends_that_the_flash_is_known_to_be_erased() {
    let mut probe = TelinkSws::from_io_for_test(Chip::new(vec![0; 16384]));
    probe.erase_sws_flash_all().unwrap();
    probe.write_sws_flash(0, &[0xf0]).unwrap();
    probe.write_sws_flash(0, &[0x30]).unwrap();
    assert!(probe.can_assume_flash_range_erased(8192, 1));
    assert_eq!(probe.io().count(3), 0);
    probe.write_sws_flash(0, &[0x3f]).unwrap();
    assert_eq!(probe.io().count(3), 1);
    assert!(!probe.can_assume_flash_range_erased(8192, 1));
}

#[test]
fn a_failed_write_stays_in_its_sectors() {
    let before = pattern(16384, 1);
    let data = pattern(3000, 2);
    for fail_at in 1..12 {
        let mut chip = Chip::new(before.clone());
        chip.fail_at = Some(fail_at);
        let mut probe = TelinkSws::from_io_for_test(chip);
        assert_eq!(
            probe.write_sws_flash(5000, &data),
            Err(DebugProbeError::Timeout)
        );
        assert_eq!(&probe.io().content[..4096], &before[..4096]);
        assert_eq!(&probe.io().content[8192..], &before[8192..]);
    }
}

#[test]
fn a_failed_read_keeps_what_came_before() {
    let content = pattern(8192, 12);
    let mut chip = Chip::new(content.clone());
    chip.fail_at = Some(3);
    let mut probe = TelinkSws::from_io_for_test(chip);
    let mut data = vec![0xee; 4000];
    assert_eq!(
        probe.read_sws_flash_sector(1000, &mut data),
        Err(DebugProbeError::Timeout)
    );
    assert_eq!(&data[..2048], &content[1000..3048]);
    assert_eq!(&data[2048..], &vec![0xee; 1952][..]);
    assert_eq!(probe.io().content, content);
}

#[test]
fn a_write_that_fails_while_the_flash_is_known_to_be_erased_is_forgotten() {
    let mut probe = TelinkSws::from_io_for_test(Chip::new(vec![0; 4096]));
    probe.erase_sws_flash_all().unwrap();
    let commands = probe.io().commands.len();
    let mut chip = Chip::new(vec![0xff; 4096]);
    chip.fail_at = Some(commands + 2);
    let mut probe = TelinkSws::from_io_for_test(chip);
    probe.erase_sws_flash_all().unwrap();
    assert_eq!(
        probe.write_sws_flash(0, &[0x0f]),
        Err(DebugProbeError::Timeout)
    );
    assert!(probe.can_assume_flash_range_erased(0, 1));
    assert_eq!(probe.io().content[0], 0x0f);
    probe.write_sws_flash(0, &[0xf0]).unwrap();
    assert_eq!(probe.io().content[0], 0x00);
}
