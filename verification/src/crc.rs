//! The CRC-16 that closes every packet on the wire.

use vstd::prelude::*;

use crate::bytes;

verus! {

/// One shift of the reflected polynomial register.
pub open spec fn crc_shift(crc: u16) -> u16 {
    if crc & 1 != 0 {
        (crc >> 1) ^ 0xa001
    } else {
        crc >> 1
    }
}

/// `n` shifts of the register.
pub open spec fn crc_shifts(crc: u16, n: nat) -> u16
    decreases n,
{
    if n == 0 {
        crc
    } else {
        crc_shift(crc_shifts(crc, (n - 1) as nat))
    }
}

/// The register after taking in one byte.
pub open spec fn crc_feed(crc: u16, byte: u8) -> u16 {
    crc_shifts(crc ^ (byte as u16), 8)
}

/// The CRC of `data`: the register, all ones at first, after every byte.
pub open spec fn crc_of(data: Seq<u8>) -> u16
    decreases data.len(),
{
    if data.len() == 0 {
        0xffff
    } else {
        crc_feed(crc_of(data.drop_last()), data.last())
    }
}

/// `data` followed by its CRC, low byte first.
pub open spec fn framed(data: Seq<u8>) -> Seq<u8> {
    data + bytes::le_bytes(crc_of(data) as nat, 2)
}

/// Whether the last two bytes of `packet` are the CRC of those before.
pub open spec fn is_framed(packet: Seq<u8>) -> bool {
    packet.len() >= 2 && packet == framed(packet.take(packet.len() - 2))
}

/// The two CRC bytes of `data`, low byte first.
pub fn crc16(data: &[u8]) -> (crc_bytes: [u8; 2])
    ensures
        crc_bytes@ == bytes::le_bytes(crc_of(data@) as nat, 2),
{
    let mut crc: u16 = 0xffff;
    let mut i: usize = 0;
    while i < data.len()
        invariant
            i <= data@.len(),
            crc == crc_of(data@.take(i as int)),
        decreases data@.len() - i,
    {
        let ghost before = crc;
        crc = crc ^ (data[i] as u16);
        let ghost mixed = crc;
        let mut shifts: u8 = 0;
        while shifts < 8
            invariant
                shifts <= 8,
                crc == crc_shifts(mixed, shifts as nat),
            decreases 8 - shifts,
        {
            if crc & 1 != 0 {
                crc = (crc >> 1) ^ 0xa001;
            } else {
                crc = crc >> 1;
            }
            shifts = shifts + 1;
        }
        proof {
            let longer = data@.take(i + 1);
            assert(longer.drop_last() =~= data@.take(i as int));
            assert(crc == crc_feed(before, data@[i as int]));
        }
        i = i + 1;
    }
    proof {
        assert(data@.take(i as int) =~= data@);
        bytes::lemma_le_two(crc as nat);
    }
    let crc_bytes = [(crc % 256) as u8, (crc / 256) as u8];
    assert(crc_bytes@ =~= bytes::le_bytes(crc as nat, 2));
    crc_bytes
}

/// Appends the CRC of `data` to it.
pub fn crc_block(data: &[u8]) -> (packet: Vec<u8>)
    ensures
        packet@ == framed(data@),
{
    let mut packet: Vec<u8> = Vec::new();
    packet.extend_from_slice(data);
    let crc = crc16(data);
    packet.push(crc[0]);
    packet.push(crc[1]);
    proof {
        bytes::lemma_le_two(crc_of(data@) as nat);
        assert(packet@ =~= framed(data@));
    }
    packet
}

/// Whether `data` ends in the CRC of what precedes it.
pub fn crc_valid(data: &[u8]) -> (valid: bool)
    ensures
        valid == is_framed(data@),
{
    if data.len() < 2 {
        return false;
    }
    let split: usize = data.len() - 2;
    let (body, tail) = data.split_at(split);
    let crc = crc16(body);
    let valid = crc[0] == tail[0] && crc[1] == tail[1];
    proof {
        let expected = framed(data@.take(split as int));
        assert(body@ =~= data@.take(split as int));
        bytes::lemma_le_two(crc_of(body@) as nat);
        assert(expected.len() == data@.len());
        assert(expected[split as int] == crc@[0] && expected[split + 1] == crc@[1]);
        assert(data@[split as int] == tail@[0] && data@[split + 1] == tail@[1]);
        if valid {
            assert(data@ =~= expected);
        }
    }
    valid
}

/// Every framed packet passes the check.
pub proof fn law_framed_is_valid(data: Seq<u8>)
    ensures
        is_framed(framed(data)),
{
    bytes::lemma_le_bytes_len(crc_of(data) as nat, 2);
    assert(framed(data).take(framed(data).len() - 2) =~= data);
}

/// A packet in which exactly one byte was altered, in the data or in the CRC,
/// fails the check.
pub proof fn law_one_altered_byte_is_rejected(packet: Seq<u8>, at: int, byte: u8)
    requires
        is_framed(packet),
        0 <= at < packet.len(),
        byte != packet[at],
    ensures
        !is_framed(packet.update(at, byte)),
{
    let split = packet.len() - 2;
    let altered = packet.update(at, byte);
    let body = packet.take(split);
    let altered_body = altered.take(split);
    bytes::lemma_le_two(crc_of(body) as nat);
    bytes::lemma_le_two(crc_of(altered_body) as nat);
    if at < split {
        assert(altered_body =~= body.update(at, byte));
        lemma_altered_byte_alters_crc(body, at, byte);
        if is_framed(altered) {
            assert(altered[split] == packet[split] && altered[split + 1] == packet[split + 1]);
            assert(framed(body)[split] == (crc_of(body) as nat % 256) as u8);
            assert(framed(body)[split + 1] == (crc_of(body) as nat / 256 % 256) as u8);
            assert(framed(altered_body)[split] == (crc_of(altered_body) as nat % 256) as u8);
            assert(framed(altered_body)[split + 1] == (crc_of(altered_body) as nat / 256
                % 256) as u8);
            assert(false);
        }
    } else {
        assert(altered_body =~= body);
        if is_framed(altered) {
            assert(altered[at] == packet[at]);
        }
    }
}

/// Changing one byte of `data` changes its CRC.
proof fn lemma_altered_byte_alters_crc(data: Seq<u8>, at: int, byte: u8)
    requires
        0 <= at < data.len(),
        byte != data[at],
    ensures
        crc_of(data.update(at, byte)) != crc_of(data),
    decreases data.len(),
{
    let altered = data.update(at, byte);
    let head = data.drop_last();
    if at < data.len() - 1 {
        assert(altered.drop_last() =~= head.update(at, byte));
        lemma_altered_byte_alters_crc(head, at, byte);
        lemma_feed_keeps_apart(crc_of(altered.drop_last()), crc_of(head), data.last());
    } else {
        assert(altered.drop_last() =~= head);
        let crc = crc_of(head);
        let old_byte = data.last();
        assert(crc ^ (byte as u16) != crc ^ (old_byte as u16)) by (bit_vector)
            requires
                byte != old_byte,
        ;
        lemma_shifts_keep_apart(crc ^ (byte as u16), crc ^ (old_byte as u16), 8);
    }
}

/// Distinct registers stay distinct when both take in the same byte.
proof fn lemma_feed_keeps_apart(a: u16, b: u16, byte: u8)
    requires
        a != b,
    ensures
        crc_feed(a, byte) != crc_feed(b, byte),
{
    assert(a ^ (byte as u16) != b ^ (byte as u16)) by (bit_vector)
        requires
            a != b,
    ;
    lemma_shifts_keep_apart(a ^ (byte as u16), b ^ (byte as u16), 8);
}

/// Distinct registers stay distinct through any number of shifts.
proof fn lemma_shifts_keep_apart(a: u16, b: u16, n: nat)
    requires
        a != b,
    ensures
        crc_shifts(a, n) != crc_shifts(b, n),
    decreases n,
{
    if n > 0 {
        lemma_shifts_keep_apart(a, b, (n - 1) as nat);
        let x = crc_shifts(a, (n - 1) as nat);
        let y = crc_shifts(b, (n - 1) as nat);
        assert(crc_shift(x) != crc_shift(y)) by (bit_vector)
            requires
                x != y,
        ;
    }
}

/// The bits of `data` in the order in which they enter the register: byte by
/// byte, the lowest bit of each first.
pub open spec fn bits_of(data: Seq<u8>) -> Seq<bool> {
    Seq::new(8 * data.len(), |i: int| (data[i / 8] >> ((i % 8) as u8)) & 1 == 1)
}

/// The coefficient of x^`e` in a polynomial that is given from x^0 on.
pub open spec fn coefficient(polynomial: Seq<bool>, e: int) -> bool {
    0 <= e < polynomial.len() && polynomial[e]
}

/// Whether `dividend == quotient * (x^16 + x^15 + x^2 + 1) + remainder` holds of
/// the coefficients of x^`e`, where addition is without carry. The dividend is
/// the polynomial whose highest coefficient is the first of `bits`, times x^16,
/// plus a one for each of the sixteen highest powers from x^`bits.len()` on. The
/// lowest bit of `remainder` is its coefficient of x^15.
pub open spec fn divides(bits: Seq<bool>, quotient: Seq<bool>, remainder: u16, e: int) -> bool {
    let n = bits.len() as int;
    let dividend = (e >= 16 && bits[n - 1 - (e - 16)]) != (n <= e < n + 16);
    let product = ((coefficient(quotient, e - 16) != coefficient(quotient, e - 15))
        != coefficient(quotient, e - 2)) != coefficient(quotient, e);
    let left = 0 <= e < 16 && (remainder >> ((15 - e) as u16)) & 1 == 1;
    dividend == (product != left)
}

/// The CRC is the remainder of the message, as a polynomial over its bits,
/// after division by x^16 + x^15 + x^2 + 1; the register is all ones at first.
pub proof fn law_crc_is_the_remainder(data: Seq<u8>)
    ensures
        exists|quotient: Seq<bool>|
            quotient.len() == 8 * data.len() && forall|e: int|
                0 <= e < 8 * data.len() + 16 ==> #[trigger] divides(
                    bits_of(data),
                    quotient,
                    crc_of(data),
                    e,
                ),
{
    let quotient = lemma_division(bits_of(data));
    lemma_register(data);
}

/// The CRC of any data followed by its own CRC, low byte first, is zero.
pub proof fn law_nothing_remains_of_a_frame(data: Seq<u8>)
    ensures
        crc_of(
            data.push((crc_of(data) as nat % 256) as u8).push((crc_of(data) as nat / 256) as u8),
        ) == 0,
        framed(data) == data.push((crc_of(data) as nat % 256) as u8).push(
            (crc_of(data) as nat / 256) as u8,
        ),
{
    let crc = crc_of(data);
    let low = (crc as nat % 256) as u8;
    let high = (crc as nat / 256) as u8;
    let one = data.push(low);
    let two = one.push(high);
    assert(one.drop_last() =~= data && two.drop_last() =~= one);
    assert(crc_of(one) == crc_feed(crc, low) && crc_of(two) == crc_feed(crc_of(one), high));
    lemma_own_bytes_clear(crc, (crc % 256) as u8, (crc / 256) as u8);
    bytes::lemma_le_two(crc as nat);
    assert(framed(data) =~= two);
}

/// The packets that pass the check are those of at least two bytes whose CRC,
/// taken over all of their bytes, is zero.
pub proof fn law_valid_packets_leave_nothing(packet: Seq<u8>)
    ensures
        is_framed(packet) <==> packet.len() >= 2 && crc_of(packet) == 0,
{
    if packet.len() >= 2 {
        let body = packet.take(packet.len() - 2);
        let crc = crc_of(body);
        let low = packet[packet.len() - 2];
        let high = packet.last();
        let one = packet.drop_last();
        assert(one.drop_last() =~= body);
        law_nothing_remains_of_a_frame(body);
        if crc_of(packet) == 0 {
            assert(crc_of(one) == crc_feed(crc, low));
            lemma_only_own_bytes_clear(crc, low, high);
            assert(packet =~= framed(body));
        }
    }
}

/// The register once `bits` have entered it one by one.
spec fn register(bits: Seq<bool>) -> u16
    decreases bits.len(),
{
    if bits.len() == 0 {
        0xffff
    } else {
        takes_in(register(bits.drop_last()), bits.last())
    }
}

/// The register after taking in one bit.
spec fn takes_in(crc: u16, bit: bool) -> u16 {
    crc_shift(
        if bit {
            crc ^ 1
        } else {
            crc
        },
    )
}

/// Division of the polynomial of `bits`, one bit after the other.
proof fn lemma_division(bits: Seq<bool>) -> (quotient: Seq<bool>)
    ensures
        quotient.len() == bits.len(),
        forall|e: int|
            0 <= e < bits.len() + 16 ==> #[trigger] divides(bits, quotient, register(bits), e),
    decreases bits.len(),
{
    if bits.len() == 0 {
        let quotient = Seq::<bool>::empty();
        assert forall|e: int| 0 <= e < 16 implies #[trigger] divides(
            bits,
            quotient,
            register(bits),
            e,
        ) by {
            let j = (15 - e) as u16;
            assert((0xffffu16 >> j) & 1 == 1) by (bit_vector)
                requires
                    j < 16,
            ;
        }
        quotient
    } else {
        let head = bits.drop_last();
        let before = register(head);
        let after = register(bits);
        let bit = bits.last();
        let n = bits.len() as int;
        let old_quotient = lemma_division(head);
        let carry = (before & 1 == 1) != bit;
        let quotient = seq![carry] + old_quotient;
        assert forall|e: int| 0 <= e < n + 16 implies #[trigger] divides(
            bits,
            quotient,
            after,
            e,
        ) by {
            assert(forall|k: int| #[trigger]
                coefficient(quotient, k) == if k == 0 {
                    carry
                } else {
                    coefficient(old_quotient, k - 1)
                });
            if e > 0 {
                assert(divides(head, old_quotient, before, e - 1));
            }
            if e > 16 {
                assert(bits[n - 1 - (e - 16)] == head[n - 2 - (e - 17)]);
            }
            if e < 16 {
                lemma_taken_in(before, bit, (15 - e) as u16);
            } else if e == 16 {
                assert(before >> 0u16 == before) by (bit_vector);
            }
        }
        quotient
    }
}

/// What taking in a bit does to the bit of the register with index `j`.
proof fn lemma_taken_in(crc: u16, bit: bool, j: u16)
    requires
        j < 16,
    ensures
        ((takes_in(crc, bit) >> j) & 1 == 1) == ((j < 15 && (crc >> ((j + 1) as u16)) & 1 == 1) != (
        ((crc & 1 == 1) != bit) && (j == 15 || j == 13 || j == 0))),
{
    let after = takes_in(crc, bit);
    let mixed = if bit {
        crc ^ 1
    } else {
        crc
    };
    let carry = (crc & 1 == 1) != bit;
    let next = (j + 1) as u16;
    assert(carry == (mixed & 1 != 0) && (mixed >> 1) == (crc >> 1)) by (bit_vector)
        requires
            mixed == if bit {
                crc ^ 1
            } else {
                crc
            },
            carry == ((crc & 1 == 1) != bit),
    ;
    assert(after == if carry {
        (crc >> 1) ^ 0xa001
    } else {
        crc >> 1
    });
    assert(((after >> j) & 1 == 1) == ((j < 15 && (crc >> next) & 1 == 1) != (carry && (j == 15
        || j == 13 || j == 0)))) by (bit_vector)
        requires
            j < 16,
            next == j + 1,
            after == if carry {
                (crc >> 1) ^ 0xa001
            } else {
                crc >> 1
            },
    ;
}

/// Taking in the bits of all bytes gives the CRC.
proof fn lemma_register(data: Seq<u8>)
    ensures
        register(bits_of(data)) == crc_of(data),
    decreases data.len(),
{
    if data.len() > 0 {
        let head = data.drop_last();
        let byte = data.last();
        let word = byte as u16;
        lemma_register(head);
        lemma_bits_of_byte(data, 8);
        assert(bits_of(data).take(8 * data.len() as int) =~= bits_of(data));
        let crc = register(bits_of(data));
        assert(crc ^ (word >> 8) == crc) by (bit_vector)
            requires
                word < 256,
        ;
    } else {
        assert(bits_of(data).len() == 0);
    }
}

/// The register while the bits of the last byte of `data` enter it.
proof fn lemma_bits_of_byte(data: Seq<u8>, k: nat)
    requires
        data.len() > 0,
        k <= 8,
        register(bits_of(data.drop_last())) == crc_of(data.drop_last()),
    ensures
        crc_shifts(crc_of(data.drop_last()) ^ (data.last() as u16), k) == register(
            bits_of(data).take(8 * (data.len() - 1) + k),
        ) ^ ((data.last() as u16) >> (k as u16)),
    decreases k,
{
    let head = data.drop_last();
    let byte = data.last();
    let word = byte as u16;
    let bits = bits_of(data).take(8 * (data.len() - 1) + k);
    if k == 0 {
        assert(bits =~= bits_of(head));
        assert(word >> 0 == word) by (bit_vector);
    } else {
        lemma_bits_of_byte(data, (k - 1) as nat);
        let fewer = bits_of(data).take(8 * (data.len() - 1) + (k - 1));
        assert(bits.drop_last() =~= fewer);
        let crc = register(fewer);
        let bit = bits.last();
        let i = (k - 1) as u16;
        let at = (k - 1) as u8;
        let next = k as u16;
        assert(bit == ((byte >> at) & 1 == 1));
        assert(crc_shift(crc ^ (word >> i)) == crc_shift(
            if bit {
                crc ^ 1
            } else {
                crc
            },
        ) ^ (word >> next)) by (bit_vector)
            requires
                i < 8,
                at == i,
                next == i + 1,
                word == byte,
                bit == ((byte >> at) & 1 == 1),
        ;
    }
}

/// A register that takes in its own low byte, then its own high byte, is clear.
proof fn lemma_own_bytes_clear(crc: u16, low: u8, high: u8)
    requires
        low == crc % 256,
        high == crc / 256,
    ensures
        crc_feed(crc_feed(crc, low), high) == 0,
{
    let mixed = crc ^ (low as u16);
    let rest = mixed >> 8;
    assert(mixed & 0xff == 0 && rest ^ (high as u16) == 0) by (bit_vector)
        requires
            low == crc % 256,
            high == crc / 256,
            mixed == crc ^ (low as u16),
            rest == mixed >> 8,
    ;
    assert(0u16 & 0xff == 0 && 0u16 >> 8 == 0) by (bit_vector);
    lemma_shifts_of_zeros(mixed, 8);
    lemma_shifts_of_zeros(0, 8);
}

/// Only its own two bytes clear a register.
proof fn lemma_only_own_bytes_clear(crc: u16, low: u8, high: u8)
    requires
        crc_feed(crc_feed(crc, low), high) == 0,
    ensures
        low == crc % 256,
        high == crc / 256,
{
    let middle = crc_feed(crc, low);
    let last = middle ^ (high as u16);
    assert(0u16 >> 8 == 0) by (bit_vector);
    lemma_shifts_back(last, 8);
    assert(last == 0) by (bit_vector)
        requires
            last == 0u16 << 8,
    ;
    assert(middle == high) by (bit_vector)
        requires
            middle ^ (high as u16) == 0,
    ;
    let mixed = crc ^ (low as u16);
    assert(middle >> 8 == 0) by (bit_vector)
        requires
            middle == high,
    ;
    lemma_shifts_back(mixed, 8);
    assert(low == crc % 256 && high == crc / 256) by (bit_vector)
        requires
            crc ^ (low as u16) == middle << 8,
            middle == high,
    ;
}

/// Shifting zeros out of the register changes nothing else.
proof fn lemma_shifts_of_zeros(crc: u16, n: nat)
    requires
        n <= 8,
        crc & 0xff == 0,
    ensures
        crc_shifts(crc, n) == crc >> (n as u16),
    decreases n,
{
    if n == 0 {
        assert(crc >> 0 == crc) by (bit_vector);
    } else {
        lemma_shifts_of_zeros(crc, (n - 1) as nat);
        let i = (n - 1) as u16;
        let next = n as u16;
        assert(crc_shift(crc >> i) == crc >> next) by (bit_vector)
            requires
                crc & 0xff == 0,
                i < 8,
                next == i + 1,
        ;
    }
}

/// A register whose high bits are clear after as many shifts has shifted out
/// nothing but zeros.
proof fn lemma_shifts_back(crc: u16, n: nat)
    requires
        n <= 8,
        crc_shifts(crc, n) >> ((16 - n) as u16) == 0,
    ensures
        crc == crc_shifts(crc, n) << (n as u16),
    decreases n,
{
    let last = crc_shifts(crc, n);
    if n == 0 {
        assert(last << 0 == last) by (bit_vector);
    } else {
        let before = crc_shifts(crc, (n - 1) as nat);
        let i = (n - 1) as u16;
        let next = n as u16;
        let room = (16 - n) as u16;
        let wider = (17 - n) as u16;
        assert(before == last << 1 && before >> wider == 0 && before << i == last << next)
            by (bit_vector)
            requires
                last == crc_shift(before),
                1 <= next <= 8,
                i == next - 1,
                room == 16 - next,
                wider == 17 - next,
                last >> room == 0,
        ;
        lemma_shifts_back(crc, (n - 1) as nat);
    }
}

} // verus!
