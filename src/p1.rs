//! Telegram frames and the check of their checksum trailer.
use vstd::prelude::*;
use vstd::slice::slice_subrange;
use crate::p1::reader::{is_frame, lemma_single_frame, telegram_outcomes, Outcome};

pub mod reader;

verus! {

/// A telegram after its checksum has been looked at.
#[derive(Debug, PartialEq, Eq)]
pub enum ReadDatagram {
    /// A complete telegram; once checked, one whose checksum is right.
    Datagram(Vec<u8>),
    /// A telegram cut short; it is passed on as it is.
    IncompleteDatagram(Vec<u8>),
    /// A complete telegram whose checksum field does not match its bytes.
    InvalidCrc { datagram: Vec<u8>, expected_crc: Option<u16>, actual_crc: u16 },
}

/// The mathematical value of a [`ReadDatagram`].
pub enum Checked {
    Datagram(Seq<u8>),
    Incomplete(Seq<u8>),
    InvalidCrc(Seq<u8>, Option<u16>, u16),
}

impl View for ReadDatagram {
    type V = Checked;

    open spec fn view(&self) -> Checked {
        match self {
            ReadDatagram::Datagram(d) => Checked::Datagram(d@),
            ReadDatagram::IncompleteDatagram(d) => Checked::Incomplete(d@),
            ReadDatagram::InvalidCrc { datagram, expected_crc, actual_crc } => Checked::InvalidCrc(
                datagram@,
                *expected_crc,
                *actual_crc,
            ),
        }
    }
}

/// The CRC-16/ARC checksum of `data`.
pub uninterp spec fn crc16_arc(data: Seq<u8>) -> u16;

/// Relies on crc::Crc::<u16>::checksum with the catalogue entry CRC_16_ARC
/// (polynomial 0x8005 reflected, initial value and final XOR 0): the checksum
/// depends on the bytes alone.
#[verifier::external_body]
fn checksum(data: &[u8]) -> (r: u16)
    ensures
        r == crc16_arc(data@),
{
    crc::Crc::<u16>::new(&crc::CRC_16_ARC).checksum(data)
}

/// The value of an ASCII hex digit, of either case.
pub open spec fn hex_digit_value(b: u8) -> Option<u16> {
    if 48 <= b <= 57 {
        Some((b - 48) as u16)
    } else if 65 <= b <= 70 {
        Some((b - 55) as u16)
    } else if 97 <= b <= 102 {
        Some((b - 87) as u16)
    } else {
        None
    }
}

/// The number that four ASCII hex digits spell, most significant first;
/// nothing if `t` is anything else.
pub open spec fn hex_field(t: Seq<u8>) -> Option<u16> {
    if t.len() == 4 && hex_digit_value(t[0]) is Some && hex_digit_value(t[1]) is Some
        && hex_digit_value(t[2]) is Some && hex_digit_value(t[3]) is Some {
        Some(
            (4096 * hex_digit_value(t[0])->0 + 256 * hex_digit_value(t[1])->0 + 16
                * hex_digit_value(t[2])->0 + hex_digit_value(t[3])->0) as u16,
        )
    } else {
        None
    }
}

/// The checksum field of a telegram: its last four bytes.
pub open spec fn trailer(d: Seq<u8>) -> Seq<u8> {
    d.skip(d.len() - 4)
}

/// The bytes that the checksum covers: everything up to the terminator.
pub open spec fn checked_part(d: Seq<u8>) -> Seq<u8> {
    d.take(d.len() - 4)
}

/// The verdict on telegram `d` when its bytes before the checksum field have
/// the checksum `actual`.
pub open spec fn verdict(d: Seq<u8>, actual: u16) -> Checked {
    if hex_field(trailer(d)) == Some(actual) {
        Checked::Datagram(d)
    } else {
        Checked::InvalidCrc(d, hex_field(trailer(d)), actual)
    }
}

/// The check of a complete telegram.
pub open spec fn checked_datagram(d: Seq<u8>) -> Checked {
    verdict(d, crc16_arc(checked_part(d)))
}

/// The check of any outcome: only complete telegrams are looked at.
pub open spec fn verified(o: Checked) -> Checked {
    match o {
        Checked::Datagram(d) => checked_datagram(d),
        _ => o,
    }
}

fn hex_digit(b: u8) -> (r: Option<u16>)
    ensures
        r == hex_digit_value(b),
{
    if 48 <= b && b <= 57 {
        Some((b - 48) as u16)
    } else if 65 <= b && b <= 70 {
        Some((b - 55) as u16)
    } else if 97 <= b && b <= 102 {
        Some((b - 87) as u16)
    } else {
        None
    }
}

/// Reads the four hex digits of a checksum field.
fn parse_crc_text(crc: &[u8]) -> (r: Option<u16>)
    requires
        crc@.len() == 4,
    ensures
        r == hex_field(crc@),
{
    match (hex_digit(crc[0]), hex_digit(crc[1]), hex_digit(crc[2]), hex_digit(crc[3])) {
        (Some(d0), Some(d1), Some(d2), Some(d3)) => Some(4096 * d0 + 256 * d1 + 16 * d2 + d3),
        _ => None,
    }
}

/// Compares the checksum field of `datagram` with `actual_crc`, the checksum
/// of the bytes before that field.
pub fn compare_crc(datagram: Vec<u8>, actual_crc: u16) -> (r: ReadDatagram)
    requires
        datagram@.len() >= 4,
    ensures
        r@ == verdict(datagram@, actual_crc),
{
    let n = datagram.len();
    let expected_crc = parse_crc_text(slice_subrange(datagram.as_slice(), n - 4, n));
    match expected_crc {
        Some(e) => {
            if e == actual_crc {
                return ReadDatagram::Datagram(datagram);
            }
        },
        None => {},
    }
    ReadDatagram::InvalidCrc { datagram, expected_crc, actual_crc }
}

/// Checks the checksum of a complete telegram of at least four bytes.
pub fn verify_datagram_crc(datagram: Vec<u8>) -> (r: ReadDatagram)
    requires
        datagram@.len() >= 4,
    ensures
        r@ == checked_datagram(datagram@),
{
    let n = datagram.len();
    let actual_crc = checksum(slice_subrange(datagram.as_slice(), 0, n - 4));
    compare_crc(datagram, actual_crc)
}

/// Checks the checksum of a complete telegram; anything else passes through.
pub fn verify_crc(datagram: ReadDatagram) -> (r: ReadDatagram)
    requires
        datagram matches ReadDatagram::Datagram(d) ==> d@.len() >= 4,
    ensures
        r@ == verified(datagram@),
{
    match datagram {
        ReadDatagram::Datagram(data) => verify_datagram_crc(data),
        other => other,
    }
}

/// A well-formed telegram whose checksum field is right comes out of the
/// assembler as one complete datagram equal to it, and the check keeps it.
pub proof fn lemma_single_verified_frame(f: Seq<u8>)
    requires
        is_frame(f),
        hex_field(trailer(f)) == Some(crc16_arc(checked_part(f))),
    ensures
        telegram_outcomes(f) == seq![Outcome::Datagram(f)],
        verified(Checked::Datagram(f)) == Checked::Datagram(f),
{
    lemma_single_frame(f);
}

/// Changing one byte of a right telegram before its terminator leaves the
/// expected checksum that of the field, sets the actual one to the checksum
/// of the changed bytes, and the check keeps the telegram only if the two
/// checksums agree.
pub proof fn lemma_changed_byte(f: Seq<u8>, i: int, x: u8)
    requires
        is_frame(f),
        hex_field(trailer(f)) == Some(crc16_arc(checked_part(f))),
        1 <= i < f.len() - 5,
    ensures
        ({
            let g = f.update(i, x);
            let expected = crc16_arc(checked_part(f));
            let actual = crc16_arc(checked_part(g));
            &&& checked_part(g) == checked_part(f).update(i, x)
            &&& checked_datagram(g) == if actual == expected {
                Checked::Datagram(g)
            } else {
                Checked::InvalidCrc(g, Some(expected), actual)
            }
        }),
{
    let g = f.update(i, x);
    assert(trailer(g) =~= trailer(f));
    assert(checked_part(g) =~= checked_part(f).update(i, x));
}

} // verus!
