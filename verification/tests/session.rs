use telink_sws::crc::crc16;
use telink_sws::crc::crc_block;
use telink_sws::crc::crc_valid;
use telink_sws::error::DebugProbeError;
use telink_sws::error::IoError;
use telink_sws::error::IoErrorKind;
use telink_sws::error::ProbeCreationError;
use telink_sws::error::WireProtocol;
use telink_sws::link::Link;
use telink_sws::protocol::ATTACH_ACTIVATIONS;
use telink_sws::protocol::ATTACH_SWDIV;
use telink_sws::protocol::RECOVERY_ACTIVATIONS;
use telink_sws::protocol::SWIRE_ADDRESS_LEN;
use telink_sws::tc32::Tc32;
use telink_sws::tc32::Tc32CoreState;
use telink_sws::tc32::TlsrSwsDebug;
use telink_sws::telink_sws::TelinkSws;
use telink_sws::telink_sws::TelinkSwsFactory;
use telink_sws::transport::connect_error;
use telink_sws::transport::drain;
use telink_sws::transport::parse_endpoint;
use telink_sws::transport::Drain;
use telink_sws::transport::Endpoint;
use telink_sws::transport::Io;

const LOST: IoError = IoError {
    kind: IoErrorKind::Other,
    os_code: Some(5),
};

/// A transport that plays back what each read, write and flush gives.
#[derive(Default)]
struct Script {
    reads: Vec<Result<Vec<u8>, IoError>>,
    write_error: Option<IoError>,
    flush_error: Option<IoError>,
    settle_error: Option<IoError>,
    asked: Vec<usize>,
    writes: Vec<Vec<u8>>,
    flushes: usize,
    discards: usize,
    delays: Vec<u64>,
}

impl Script {
    fn of(replies: Vec<Vec<u8>>) -> Script {
        Script {
            reads: replies.into_iter().map(Ok).collect(),
            ..Script::default()
        }
    }
}

impl Io for Script {
    fn read(&mut self, buf: &mut [u8]) -> Result<usize, IoError> {
        self.asked.push(buf.len());
        if self.reads.is_empty() {
            return Ok(0);
        }
        match &mut self.reads[0] {
            Err(error) => {
                let error = *error;
                self.reads.remove(0);
                Err(error)
            }
            Ok(bytes) => {
                let len = buf.len().min(bytes.len());
                buf[..len].copy_from_slice(&bytes[..len]);
                bytes.drain(..len);
                if bytes.is_empty() {
                    self.reads.remove(0);
                }
                Ok(len)
            }
        }
    }

    fn write_all(&mut self, data: &[u8]) -> Result<(), IoError> {
        self.writes.push(data.to_vec());
        match self.write_error {
            Some(error) => Err(error),
            None => Ok(()),
        }
    }

    fn flush(&mut self) -> Result<(), IoError> {
        self.flushes += 1;
        match self.flush_error {
            Some(error) => Err(error),
            None => Ok(()),
        }
    }

    fn settle_after_open(&mut self) -> Result<(), IoError> {
        match self.settle_error {
            Some(error) => Err(error),
            None => Ok(()),
        }
    }

    fn discard_pending_input(&mut self) -> Result<usize, IoError> {
        self.discards += 1;
        Err(LOST)
    }

    fn delay_ms(&mut self, millis: u64) {
        self.delays.push(millis);
    }
}

fn reply(command: u8, status: u8, count: u16, payload: &[u8]) -> Vec<u8> {
    let mut packet = vec![command, status, count as u8, (count >> 8) as u8];
    packet.extend_from_slice(payload);
    crc_block(&packet)
}

fn probe(replies: Vec<Vec<u8>>) -> TelinkSws<Script> {
    TelinkSws::from_io_for_test(Script::of(replies))
}

#[test]
fn crc16_of_known_inputs() {
    assert_eq!(crc16(&[]), [0xff, 0xff]);
    assert_eq!(crc16(b"123456789"), [0x37, 0x4b]);
    assert!(!crc_valid(&[]));
    assert!(!crc_valid(&[0xff]));
    assert!(crc_valid(&[0xff, 0xff]));
}

#[test]
fn every_altered_byte_is_noticed() {
    let packet = crc_block(&[0x02, 0x00, 0x10, 0x00, 0xaa, 0xbb]);
    for at in 0..packet.len() {
        for byte in 0..=255u8 {
            let mut altered = packet.clone();
            altered[at] = byte;
            assert_eq!(crc_valid(&altered), byte == packet[at]);
        }
    }
}

#[test]
fn endpoints_are_told_apart() {
    assert_eq!(
        parse_endpoint("tcp://10.0.0.1:4000"),
        Endpoint::Tcp("10.0.0.1:4000".to_string())
    );
    assert_eq!(parse_endpoint("tcp://"), Endpoint::Tcp(String::new()));
    assert_eq!(
        parse_endpoint("/dev/ttyUSB0"),
        Endpoint::Serial("/dev/ttyUSB0".to_string())
    );
    assert_eq!(
        parse_endpoint("tcp:/x"),
        Endpoint::Serial("tcp:/x".to_string())
    );
    assert_eq!(parse_endpoint(""), Endpoint::Serial(String::new()));
}

#[test]
fn a_failed_connection_is_reported_by_its_kind() {
    assert_eq!(
        connect_error(&parse_endpoint("tcp://host:1"), LOST),
        DebugProbeError::Usb(LOST)
    );
    assert_eq!(
        connect_error(&parse_endpoint("COM3"), LOST),
        DebugProbeError::ProbeCouldNotBeCreated(ProbeCreationError::CouldNotOpen)
    );
}

#[test]
fn pending_input_is_dropped_to_the_end() {
    let nothing = IoError {
        kind: IoErrorKind::WouldBlock,
        os_code: None,
    };
    assert_eq!(drain(3, Ok(4)), Drain::More { discarded: 7 });
    assert_eq!(drain(7, Ok(0)), Drain::Done { discarded: 7 });
    assert_eq!(drain(7, Err(nothing)), Drain::Done { discarded: 7 });
    assert_eq!(drain(7, Err(LOST)), Drain::Failed(LOST));
}

#[test]
fn factory_opens_sws_endpoints_only() {
    let factory = TelinkSwsFactory;
    assert_eq!(factory.name(), "TelinkSWS");
    assert_eq!(
        factory.open(Some("COM3")),
        Ok(Endpoint::Serial("COM3".to_string()))
    );
    assert_eq!(
        factory.open(None),
        Err(DebugProbeError::ProbeCouldNotBeCreated(
            ProbeCreationError::NotFound
        ))
    );
    assert!(factory.list_probes().is_empty());
}

#[test]
fn opening_waits_for_the_transport_to_settle() {
    let probe = TelinkSws::open("COM3", Script::default()).unwrap();
    assert_eq!(probe.endpoint(), "COM3");
    assert_eq!(probe.speed_khz(), 960);
    assert!(!probe.is_attached());
    assert_eq!(probe.get_name(), "Telink SWS Programmer");
    assert_eq!(probe.active_protocol(), Some(WireProtocol::Swd));
    assert!(probe.has_tc32_interface());

    let restless = Script {
        settle_error: Some(LOST),
        ..Script::default()
    };
    assert!(matches!(
        TelinkSws::open("COM3", restless),
        Err(DebugProbeError::Usb(error)) if error == LOST
    ));
    assert!(matches!(
        TelinkSws::opened("COM3", Link::new(Script::default()), Err(LOST)),
        Err(DebugProbeError::Usb(error)) if error == LOST
    ));
}

#[test]
fn an_opened_probe_tries_a_command_four_times() {
    let bad = {
        let mut packet = reply(6, 0, 1, &[0]);
        packet[4] ^= 0x80;
        packet
    };
    let script = Script::of(vec![bad.clone(), bad.clone(), bad.clone(), reply(6, 0, 1, &[2])]);
    let mut probe = TelinkSws::open("COM3", script).unwrap();
    assert_eq!(probe.read_flash_status(), Ok(2));
    assert_eq!(probe.io().writes.len(), 4);
    assert_eq!(probe.io().flushes, 4);
    assert_eq!(probe.io().discards, 3);

    let script = Script::of(vec![bad.clone(), bad.clone(), bad.clone(), bad]);
    let mut probe = TelinkSws::open("COM3", script).unwrap();
    assert_eq!(probe.read_flash_status(), Err(DebugProbeError::InvalidCrc));
    assert_eq!(probe.io().writes.len(), 4);
    assert_eq!(probe.io().discards, 4);
}

#[test]
fn reads_ask_for_what_is_missing() {
    let whole = reply(6, 0, 1, &[0]);
    let mut probe = probe(vec![
        vec![0xff, 0xfe],
        vec![0x01, whole[0], whole[1]],
        whole[2..].to_vec(),
    ]);
    assert_eq!(probe.read_flash_status(), Ok(0));
    assert_eq!(probe.io().asked, vec![7, 7, 5]);
}

#[test]
fn silence_is_a_timeout() {
    let mut quiet = probe(vec![]);
    assert_eq!(quiet.get_version(), Err(DebugProbeError::Timeout));
    for kind in [IoErrorKind::TimedOut, IoErrorKind::WouldBlock] {
        let mut late = probe(vec![]);
        let error = IoError {
            kind,
            os_code: None,
        };
        late = TelinkSws::from_io_for_test(Script {
            reads: vec![Err(error)],
            ..Script::default()
        });
        assert_eq!(late.get_version(), Err(DebugProbeError::Timeout));
    }
}

#[test]
fn transport_failures_are_passed_on() {
    let mut unread = TelinkSws::from_io_for_test(Script {
        reads: vec![Err(LOST)],
        ..Script::default()
    });
    assert_eq!(unread.get_version(), Err(DebugProbeError::Usb(LOST)));

    let mut unwritten = TelinkSws::from_io_for_test(Script {
        write_error: Some(LOST),
        ..Script::default()
    });
    assert_eq!(unwritten.get_version(), Err(DebugProbeError::Usb(LOST)));
    assert_eq!(unwritten.io().flushes, 0);

    let mut unflushed = TelinkSws::from_io_for_test(Script {
        flush_error: Some(LOST),
        ..Script::default()
    });
    assert_eq!(unflushed.get_version(), Err(DebugProbeError::Usb(LOST)));
    assert!(unflushed.io().asked.is_empty());
}

#[test]
fn replies_are_judged() {
    let mut refused = probe(vec![reply(6, 9, 1, &[0])]);
    let error = refused.read_flash_status().unwrap_err();
    assert_eq!(error, DebugProbeError::Programmer(9));
    assert_eq!(
        error.message(),
        Some("SWS programmer returned error 9".to_string())
    );

    let mut long = probe(vec![reply(6, 0, 2, &[0])]);
    let error = long.read_flash_status().unwrap_err();
    assert_eq!(error, DebugProbeError::FlashStatusLength);
    assert_eq!(
        error.message(),
        Some("unexpected SWS flash status response length".to_string())
    );
    assert_eq!(
        DebugProbeError::InvalidCrc.message(),
        Some("invalid SWS programmer CRC".to_string())
    );
    assert_eq!(
        DebugProbeError::UnexpectedCommand.message(),
        Some("unexpected SWS programmer response command".to_string())
    );
    assert_eq!(DebugProbeError::Timeout.message(), None);
}

#[test]
fn speed_follows_the_divider() {
    let ok = || reply(0, 0, 0, &[0; 8]);
    for (wanted, swdiv, speed) in [
        (1000, 4, 1200),
        (0, 255, 18),
        (10_000, 1, 4800),
        (960, 5, 960),
        (4800, 1, 4800),
        (18, 255, 18),
    ] {
        let mut probe = probe(vec![ok()]);
        assert_eq!(probe.set_speed(wanted), Ok(speed));
        assert_eq!(probe.speed_khz(), speed);
        assert_eq!(
            probe.io().writes[0],
            crc_block(&[0, 2, 0, 0, swdiv, 3, 0x5a, 0x00, 0x06, 0x02, 0x00, 0x05])
        );
    }
    let mut probe = probe(vec![]);
    assert_eq!(probe.set_speed(1000), Err(DebugProbeError::Timeout));
    assert_eq!(probe.speed_khz(), 960);
}

#[test]
fn every_reported_speed_is_kept() {
    for swdiv in 1..=255u8 {
        let mut probe = probe(vec![reply(0, 0, 0, &[0; 8]), reply(0, 0, 0, &[0; 8])]);
        probe.set_swire_config(swdiv, 3).unwrap();
        let speed = probe.speed_khz();
        assert_eq!(speed, 4800 / u32::from(swdiv));
        assert_eq!(probe.set_speed(speed), Ok(speed));
    }
}

#[test]
fn a_configuration_can_be_sent_alone() {
    let mut probe = probe(vec![reply(0, 0, 0, &[0; 8])]);
    probe.send_swire_config(0, 3).unwrap();
    assert_eq!(probe.speed_khz(), 960);
    assert_eq!(
        probe.io().writes[0],
        crc_block(&[0, 2, 0, 0, 0, 3, 0x5a, 0x00, 0x06, 0x02, 0x00, 0x05])
    );
}

fn activation_count(activate_ms: u16, swdiv: u8, swaddrlen: u8) -> u16 {
    let bit_time = (f32::from(swaddrlen) + 5.7) * 5.0 * f32::from(swdiv) / 2400.0;
    (f32::from(activate_ms) / bit_time).min(f32::from(u16::MAX)) as u16
}

#[test]
fn activations_last_as_long_as_said() {
    assert_eq!(
        ATTACH_ACTIVATIONS,
        activation_count(70, ATTACH_SWDIV, SWIRE_ADDRESS_LEN)
    );
    assert_eq!(
        RECOVERY_ACTIVATIONS,
        activation_count(100, ATTACH_SWDIV, SWIRE_ADDRESS_LEN)
    );
}

#[test]
fn attaching_sends_the_configuration_and_the_counts() {
    let io = Script::of(vec![
        reply(0, 0, 13, &[0; 13]),
        reply(0, 0, 0, &[0; 8]),
        reply(0, 0, 0, &[0]),
        reply(0, 0, 2, &[7, 7]),
    ]);
    let mut probe = TelinkSws::open("COM3", io).unwrap();
    probe.attach().unwrap();
    assert!(probe.is_attached());
    assert_eq!(probe.speed_khz(), 1200);
    assert!(probe.io().delays.is_empty());
    assert_eq!(
        probe.io().writes,
        vec![
            crc_block(&[0, 0, 0, 0]),
            crc_block(&[0, 2, 0, 0, 4, 3, 0x5a, 0x00, 0x06, 0x02, 0x00, 0x05]),
            crc_block(&[0, 3, 0, 0]),
            crc_block(&[0, 4, 0xc5, 0x03]),
        ]
    );
    assert_eq!(probe.io().asked, vec![19, 14, 7, 6, 2]);
}

#[test]
fn activation_failures_are_told_apart() {
    let mut refused = probe(vec![reply(0, 3, 0, &[])]);
    let error = refused.activate(1).unwrap_err();
    assert_eq!(error, DebugProbeError::ActivateFailed(3));
    assert_eq!(
        error.message(),
        Some("SWS activate failed with error 3".to_string())
    );

    let mut garbled = reply(0, 0, 0, &[]);
    garbled[5] ^= 1;
    let mut garbled = probe(vec![garbled]);
    let error = garbled.activate(1).unwrap_err();
    assert_eq!(error, DebugProbeError::InvalidActivateCrc);
    assert_eq!(
        error.message(),
        Some("invalid SWS activate CRC".to_string())
    );
    assert_eq!(garbled.io().discards, 0);

    let mut cut = probe(vec![reply(0, 0, 4, &[])]);
    assert_eq!(cut.activate(1), Err(DebugProbeError::Timeout));
}

#[test]
fn a_failed_attach_leaves_the_probe_detached() {
    let mut probe = probe(vec![reply(0, 0, 13, &[0; 13])]);
    probe.detach().unwrap();
    assert_eq!(probe.attach(), Err(DebugProbeError::Timeout));
    assert!(!probe.is_attached());
    assert_eq!(probe.io().writes.len(), 2);
}

#[test]
fn the_reset_pin_is_pulled_and_let_go() {
    let ok = || reply(0, 0, 0, &[0]);
    let mut both = probe(vec![ok(), ok()]);
    both.target_reset().unwrap();
    assert_eq!(
        both.io().writes,
        vec![crc_block(&[0, 3, 1, 0]), crc_block(&[0, 3, 0, 0])]
    );
    let mut one = probe(vec![]);
    assert_eq!(one.target_reset(), Err(DebugProbeError::Timeout));
    assert_eq!(one.io().writes.len(), 1);
    let mut held = probe(vec![ok()]);
    held.target_reset_assert().unwrap();
    assert_eq!(held.io().writes[0], crc_block(&[0, 3, 1, 0]));
    let mut freed = probe(vec![ok()]);
    freed.target_reset_deassert().unwrap();
    assert_eq!(freed.io().writes[0], crc_block(&[0, 3, 0, 0]));
}

#[test]
fn only_swd_can_be_selected() {
    let mut probe = probe(vec![]);
    assert_eq!(probe.select_protocol(WireProtocol::Swd), Ok(()));
    assert_eq!(
        probe.select_protocol(WireProtocol::Jtag),
        Err(DebugProbeError::UnsupportedProtocol(WireProtocol::Jtag))
    );
}

#[test]
fn a_busy_flash_is_polled_up_to_the_limit() {
    let busy = reply(6, 0, 1, &[1]);
    let mut probe = probe(vec![busy.clone(), busy.clone(), reply(6, 0, 1, &[0x80])]);
    assert_eq!(probe.wait_flash_ready(), Ok(()));
    assert_eq!(probe.io().writes.len(), 3);

    let mut stuck = TelinkSws::from_io_for_test(Script::of(vec![busy; 300]));
    assert_eq!(stuck.wait_flash_ready(), Err(DebugProbeError::Timeout));
    assert_eq!(stuck.io().writes.len(), 300);
    assert_eq!(
        stuck.wait_flash_ready_with_limit(0),
        Err(DebugProbeError::Timeout)
    );
    assert_eq!(stuck.io().writes.len(), 300);
}

#[test]
fn page_writes_are_checked() {
    let mut probe = probe(vec![reply(2, 0, 1, &[])]);
    let error = probe.program_sws_flash_page(0, &[0; 257]).unwrap_err();
    assert_eq!(error, DebugProbeError::FlashBlockTooLarge(257));
    assert_eq!(
        error.message(),
        Some("SWS flash write block too large: 257".to_string())
    );
    assert!(probe.io().writes.is_empty());
    let error = probe.program_sws_flash_page(0x123456, &[1, 2]).unwrap_err();
    assert_eq!(
        error,
        DebugProbeError::FlashWriteLength {
            written: 1,
            expected: 2
        }
    );
    assert_eq!(
        error.message(),
        Some("SWS programmer wrote 1 flash bytes instead of 2".to_string())
    );
    assert_eq!(
        probe.io().writes[0],
        crc_block(&[2, 0x56, 0x34, 0x12, 1, 2])
    );
}

#[test]
fn memory_is_read_and_written() {
    let mut probe = probe(vec![reply(7, 0, 3, &[9, 8, 7]), reply(8, 0, 0, &[])]);
    let mut data = [0; 3];
    probe.read_sws_memory(0x840002, &mut data).unwrap();
    assert_eq!(data, [9, 8, 7]);
    probe.write_sws_memory(0x602, &[5]).unwrap();
    assert_eq!(
        probe.io().writes,
        vec![
            crc_block(&[7, 0x02, 0x00, 0x84, 3, 0]),
            crc_block(&[8, 0x02, 0x06, 0x00, 5]),
        ]
    );
    let mut kept = [1; 3];
    assert_eq!(
        probe.read_sws_flash(0, &mut kept),
        Err(DebugProbeError::Timeout)
    );
    assert_eq!(kept, [1; 3]);
}

#[test]
fn a_core_over_a_probe_sends_a_command_for_each_access() {
    let mut probe = probe(vec![
        reply(8, 0, 0, &[]),
        reply(8, 0, 0, &[]),
        reply(1, 0, 2, &[3, 4]),
    ]);
    let mut state = Tc32CoreState::new();
    {
        let interface = probe.try_get_tc32_interface().unwrap();
        let mut core = Tc32::new(interface, &mut state);
        core.run().unwrap();
        let mut data = [0; 2];
        core.read_8(0x100, &mut data).unwrap();
        assert_eq!(data, [3, 4]);
        assert!(core.read_16(0x101, &mut [0]).is_err());
    }
    let mut breakpoints = vec![8, 0x10, 0x06, 0x00];
    breakpoints.extend_from_slice(&[0; 16]);
    assert_eq!(
        probe.io().writes,
        vec![
            crc_block(&breakpoints),
            crc_block(&[8, 0x02, 0x06, 0x00, 0x08]),
            crc_block(&[1, 0x00, 0x01, 0x00, 2, 0]),
        ]
    );
    assert_eq!(probe.io().delays, vec![2]);
}

#[test]
fn bits_can_be_cleared_without_an_erase() {
    let can = TelinkSws::<Script>::bytes_can_be_programmed_without_erase;
    assert!(can(&[0xff, 0xf0], &[0x12, 0x30]));
    assert!(!can(&[0xff, 0xf0], &[0x12, 0x31]));
    assert!(can(&[], &[0xff]));
    assert!(can(&[0x00], &[]));
}

#[test]
fn counts_are_little_endian() {
    assert_eq!(TelinkSws::<Script>::response_count(&[0, 0, 0x34, 0x12]), 0x1234);
}

#[test]
fn erased_ranges_are_remembered() {
    let mut probe = probe(vec![
        reply(4, 0, 0, &[]),
        reply(6, 0, 1, &[0]),
        reply(3, 0, 0, &[]),
        reply(6, 0, 1, &[0]),
    ]);
    assert!(!probe.can_assume_flash_range_erased(0, 1));
    probe.erase_sws_flash_all().unwrap();
    assert!(probe.can_assume_flash_range_erased(0, 0x80000));
    assert!(!probe.can_assume_flash_range_erased(u32::MAX, 1));
    probe.mark_programmed_flash_range(0x100, 0x10);
    assert!(probe.can_assume_flash_range_erased(0x0, 0x100));
    assert!(probe.can_assume_flash_range_erased(0x110, 0x100));
    assert!(!probe.can_assume_flash_range_erased(0x10f, 1));
    assert!(!probe.can_assume_flash_range_erased(0xff, 2));
    probe.mark_programmed_flash_range(0x200, 0);
    assert!(probe.can_assume_flash_range_erased(0x1ff, 2));
    probe.erase_sws_flash_sector(0x1000).unwrap();
    assert!(!probe.can_assume_flash_range_erased(0x1000, 1));
    assert_eq!(probe.io().writes[2], crc_block(&[3, 0x00, 0x10, 0x00]));
}
