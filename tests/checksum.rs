use p1_telegram::p1::reader::{DatagramReader, ReadDatagram as Assembled};
use p1_telegram::p1::{compare_crc, verify_crc, verify_datagram_crc, ReadDatagram};

fn crc_of(bytes: &[u8]) -> u16 {
    crc::Crc::<u16>::new(&crc::CRC_16_ARC).checksum(bytes)
}

fn correct_datagram_1() -> Vec<u8> {
    let mut text = String::from("/ISk5\\2MT382-1000\r\n\r\n");
    for i in 0..30 {
        text.push_str(&format!("1-0:{}.8.1(123456.{:03}*kWh)\r\n", i, i));
    }
    text.push('!');
    let mut bytes = text.into_bytes();
    let crc = crc_of(&bytes);
    bytes.extend_from_slice(format!("{:04X}", crc).as_bytes());
    bytes
}

#[test]
fn it_should_remove_the_crc_of_a_correct_datagram() {
    let correct_datagram_1 = correct_datagram_1();
    let mut datagram = Vec::new();
    datagram.extend_from_slice(&correct_datagram_1);

    let output = verify_datagram_crc(datagram);

    let mut expected_datagram = Vec::new();
    expected_datagram.extend_from_slice(&correct_datagram_1);
    assert_eq!(output, ReadDatagram::Datagram(expected_datagram));
}

#[test]
fn it_should_signal_an_invalid_crc_when_the_crc_is_invalid() {
    let correct_datagram_1 = correct_datagram_1();
    let n = correct_datagram_1.len();
    let mut datagram = Vec::new();
    datagram.extend_from_slice(&correct_datagram_1);
    datagram[100] = 15;

    let output = verify_datagram_crc(datagram.to_owned());

    let expected_output = ReadDatagram::InvalidCrc {
        datagram: datagram.clone(),
        actual_crc: crc_of(&datagram[..n - 4]),
        expected_crc: Some(crc_of(&correct_datagram_1[..n - 4])),
    };
    assert_eq!(output, expected_output);
    if let ReadDatagram::InvalidCrc { expected_crc, actual_crc, .. } = output {
        assert_ne!(expected_crc, Some(actual_crc));
    }
}

#[test]
fn the_checksum_is_crc16_arc_of_the_bytes_before_the_field() {
    assert_eq!(verify_datagram_crc(b"123456789BB3D".to_vec()), ReadDatagram::Datagram(b"123456789BB3D".to_vec()));
    assert_eq!(verify_datagram_crc(b"123456789bb3d".to_vec()), ReadDatagram::Datagram(b"123456789bb3d".to_vec()));
    assert_eq!(
        verify_datagram_crc(b"123456789BB3E".to_vec()),
        ReadDatagram::InvalidCrc { datagram: b"123456789BB3E".to_vec(), expected_crc: Some(0xBB3E), actual_crc: 0xBB3D }
    );
    assert_eq!(
        verify_datagram_crc(b"0000".to_vec()),
        ReadDatagram::Datagram(b"0000".to_vec())
    );
}

#[test]
fn a_trailer_that_is_not_four_hex_digits_gives_no_expected_value() {
    assert_eq!(
        compare_crc(b"/x!12G4".to_vec(), 0x1234),
        ReadDatagram::InvalidCrc { datagram: b"/x!12G4".to_vec(), expected_crc: None, actual_crc: 0x1234 }
    );
    assert_eq!(
        compare_crc(b"/x!+123".to_vec(), 0x0123),
        ReadDatagram::InvalidCrc { datagram: b"/x!+123".to_vec(), expected_crc: None, actual_crc: 0x0123 }
    );
}

#[test]
fn compare_crc_accepts_only_the_matching_value() {
    assert_eq!(compare_crc(b"/a!E47C".to_vec(), 0xE47C), ReadDatagram::Datagram(b"/a!E47C".to_vec()));
    assert_eq!(compare_crc(b"/a!e47c".to_vec(), 0xE47C), ReadDatagram::Datagram(b"/a!e47c".to_vec()));
    assert_eq!(compare_crc(b"/a!ffff".to_vec(), 0xFFFF), ReadDatagram::Datagram(b"/a!ffff".to_vec()));
    assert_eq!(
        compare_crc(b"/a!E47C".to_vec(), 0xBAD7),
        ReadDatagram::InvalidCrc { datagram: b"/a!E47C".to_vec(), expected_crc: Some(0xE47C), actual_crc: 0xBAD7 }
    );
}

#[test]
fn only_complete_datagrams_are_checked() {
    let cut = ReadDatagram::IncompleteDatagram(b"/abc".to_vec());
    assert_eq!(verify_crc(cut), ReadDatagram::IncompleteDatagram(b"/abc".to_vec()));
    let bad = ReadDatagram::InvalidCrc { datagram: b"/a!0000".to_vec(), expected_crc: Some(0), actual_crc: 1 };
    assert_eq!(
        verify_crc(bad),
        ReadDatagram::InvalidCrc { datagram: b"/a!0000".to_vec(), expected_crc: Some(0), actual_crc: 1 }
    );
    let good = correct_datagram_1();
    assert_eq!(verify_crc(ReadDatagram::Datagram(good.clone())), ReadDatagram::Datagram(good));
}

#[test]
fn a_non_hex_trailer_is_a_checksum_outcome_not_a_cut_telegram() {
    let mut reader = DatagramReader::new();
    let (used, outcome) = reader.next_datagram(b"/ab!zz!z");
    assert_eq!(used, 8);
    assert_eq!(outcome, Some(Assembled::Datagram(b"/ab!zz!z".to_vec())));
    assert_eq!(
        verify_crc(ReadDatagram::Datagram(b"/ab!zz!z".to_vec())),
        ReadDatagram::InvalidCrc {
            datagram: b"/ab!zz!z".to_vec(),
            expected_crc: None,
            actual_crc: crc_of(b"/ab!"),
        }
    );
}
