//! Diagnostic text for the serial console. Each function appends the bytes
//! that it prints to a sink, which the driver writes to the UART.

use vstd::prelude::*;
use vstd::string::StringSliceAdditionalSpecFns;

verus! {

/// Cycles of the cycle counter in one microsecond.
pub const CLOCK_FREQ: u64 = 50;

/// The character for a hexadecimal digit, capital letters from ten on.
pub open spec fn hex_digit(b: u8) -> u8 {
    if b <= 9 {
        (b + 48) as u8
    } else {
        (b + 55) as u8
    }
}

/// The two hexadecimal digits of a byte.
pub open spec fn hex_byte(b: u8) -> Seq<u8> {
    seq![hex_digit(b / 16), hex_digit(b % 16)]
}

/// The hexadecimal digits of every byte, one after the other.
pub open spec fn hex_text(s: Seq<u8>) -> Seq<u8>
    decreases s.len(),
{
    if s.len() == 0 {
        Seq::<u8>::empty()
    } else {
        hex_text(s.drop_last()) + hex_byte(s.last())
    }
}

/// The decimal digits of a number, without leading zeros.
pub open spec fn dec_text(n: nat) -> Seq<u8>
    decreases n,
{
    if n < 10 {
        seq![(48 + n) as u8]
    } else {
        dec_text(n / 10).push((48 + n % 10) as u8)
    }
}

/// The first `count` bytes of a 64-bit number, most significant first, each
/// as two hexadecimal digits and a space.
pub open spec fn hex_u64_text(b: u64, count: nat) -> Seq<u8>
    decreases count,
{
    if count == 0 {
        Seq::<u8>::empty()
    } else {
        hex_u64_text(b, (count - 1) as nat) + hex_byte(
            ((b as nat / pow256((8 - count) as nat)) % 256) as u8,
        ) + seq![32u8]
    }
}

/// 256 to the power of `n`.
pub open spec fn pow256(n: nat) -> nat
    decreases n,
{
    if n == 0 {
        1
    } else {
        256 * pow256((n - 1) as nat)
    }
}

/// A hardware address as six hexadecimal bytes with colons between.
pub open spec fn mac_text(s: [u8; 6]) -> Seq<u8> {
    hex_byte(s[0]) + seq![58u8] + hex_byte(s[1]) + seq![58u8] + hex_byte(s[2]) + seq![58u8]
        + hex_byte(s[3]) + seq![58u8] + hex_byte(s[4]) + seq![58u8] + hex_byte(s[5])
}

/// An IPv4 address in dotted decimal.
pub open spec fn ip_text(s: [u8; 4]) -> Seq<u8> {
    dec_text(s[0] as nat) + seq![46u8] + dec_text(s[1] as nat) + seq![46u8] + dec_text(s[2] as nat)
        + seq![46u8] + dec_text(s[3] as nat)
}

/// Prepares the console. Nothing is needed.
pub fn hprint_setup() {
}

/// Prints one byte.
pub fn hprint_char(c: u8, out: &mut Vec<u8>)
    ensures
        final(out)@ == old(out)@.push(c),
{
    out.push(c);
}

/// Prints the bytes as they are.
pub fn hprint_bytes(cs: &[u8], out: &mut Vec<u8>)
    ensures
        final(out)@ == old(out)@ + cs@,
{
    let mut i: usize = 0;
    while i < cs.len()
        invariant
            0 <= i <= cs@.len(),
            out@ == old(out)@ + cs@.subrange(0, i as int),
        decreases cs@.len() - i,
    {
        hprint_char(cs[i], out);
        proof {
            assert(cs@.subrange(0, i as int).push(cs@[i as int]) =~= cs@.subrange(0, i + 1));
            assert(out@ =~= old(out)@ + cs@.subrange(0, i + 1));
        }
        i = i + 1;
    }
    proof {
        assert(cs@.subrange(0, i as int) =~= cs@);
    }
}

/// Prints a text.
pub fn hprint(s: &str, out: &mut Vec<u8>)
    ensures
        final(out)@ == old(out)@ + s.spec_bytes(),
{
    hprint_bytes(s.as_bytes(), out);
}

/// Prints one hexadecimal digit. The digit's value and what lies above it
/// up to 200 have a character; larger values have none.
pub fn hprint_hex_digit(b: u8, out: &mut Vec<u8>)
    requires
        b <= 200,
    ensures
        final(out)@ == old(out)@.push(hex_digit(b)),
{
    if b <= 9 {
        hprint_char(b + 48, out);
    } else {
        hprint_char(b - 10 + 65, out);
    }
}

/// Prints a byte as two hexadecimal digits.
pub fn hprint_hex_byte(b: u8, out: &mut Vec<u8>)
    ensures
        final(out)@ == old(out)@ + hex_byte(b),
{
    let hi = b >> 4;
    let lo = b & 0xF;
    assert(b >> 4 == b / 16 && b & 0xF == b % 16) by (bit_vector);
    hprint_hex_digit(hi, out);
    hprint_hex_digit(lo, out);
    proof {
        assert(out@ =~= old(out)@ + hex_byte(b));
    }
}

/// Prints the eight bytes of a number, most significant first, each as two
/// hexadecimal digits and a space.
pub fn hprint_hex_u64(b: u64, out: &mut Vec<u8>)
    ensures
        final(out)@ == old(out)@ + hex_u64_text(b, 8),
{
    let mut i: u32 = 0;
    proof {
        assert(old(out)@ + hex_u64_text(b, 0) =~= old(out)@);
    }
    while i < 8
        invariant
            0 <= i <= 8,
            out@ == old(out)@ + hex_u64_text(b, i as nat),
        decreases 8 - i,
    {
        let shift: u32 = 64 - i * 8 - 8;
        let byte = (b >> shift) as u8;
        proof {
            lemma_byte_of(b, i);
        }
        let ghost before = out@;
        hprint_hex_byte(byte, out);
        hprint_char(32, out);
        proof {
            assert(out@ =~= old(out)@ + hex_u64_text(b, (i + 1) as nat));
        }
        i = i + 1;
    }
}

/// The byte that a shift and a truncation take out of a number is a digit of
/// the number in base 256.
proof fn lemma_byte_of(b: u64, i: u32)
    requires
        i < 8,
    ensures
        ((b >> ((64 - i * 8 - 8) as u32)) as u8) == ((b as nat / pow256((7 - i) as nat)) % 256) as u8,
{
    reveal_with_fuel(pow256, 9);
    if i == 0 {
        assert(((b >> 56u32) as u8) == ((b / 0x100_0000_0000_0000u64) % 256) as u8) by (bit_vector);
    } else if i == 1 {
        assert(((b >> 48u32) as u8) == ((b / 0x1_0000_0000_0000u64) % 256) as u8) by (bit_vector);
    } else if i == 2 {
        assert(((b >> 40u32) as u8) == ((b / 0x100_0000_0000u64) % 256) as u8) by (bit_vector);
    } else if i == 3 {
        assert(((b >> 32u32) as u8) == ((b / 0x1_0000_0000u64) % 256) as u8) by (bit_vector);
    } else if i == 4 {
        assert(((b >> 24u32) as u8) == ((b / 0x100_0000u64) % 256) as u8) by (bit_vector);
    } else if i == 5 {
        assert(((b >> 16u32) as u8) == ((b / 0x1_0000u64) % 256) as u8) by (bit_vector);
    } else if i == 6 {
        assert(((b >> 8u32) as u8) == ((b / 0x100u64) % 256) as u8) by (bit_vector);
    } else {
        assert(((b >> 0u32) as u8) == ((b / 1u64) % 256) as u8) by (bit_vector);
    }
}

/// Prints every byte as two hexadecimal digits.
pub fn hprint_hex(s: &[u8], out: &mut Vec<u8>)
    ensures
        final(out)@ == old(out)@ + hex_text(s@),
{
    let mut i: usize = 0;
    proof {
        assert(old(out)@ + hex_text(s@.subrange(0, 0)) =~= old(out)@);
    }
    while i < s.len()
        invariant
            0 <= i <= s@.len(),
            out@ == old(out)@ + hex_text(s@.subrange(0, i as int)),
        decreases s@.len() - i,
    {
        hprint_hex_byte(s[i], out);
        proof {
            let next = s@.subrange(0, i + 1);
            assert(next.drop_last() =~= s@.subrange(0, i as int));
            assert(next.last() == s@[i as int]);
            assert(out@ =~= old(out)@ + hex_text(next));
        }
        i = i + 1;
    }
    proof {
        assert(s@.subrange(0, i as int) =~= s@);
    }
}

/// Prints a number in decimal.
pub fn hprint_dec(n: u64, out: &mut Vec<u8>)
    ensures
        final(out)@ == old(out)@ + dec_text(n as nat),
{
    if n == 0 {
        hprint_char(48, out);
        proof {
            assert(out@ =~= old(out)@ + dec_text(0));
        }
        return ;
    }
    // The digits come out lowest first; they are kept and printed in reverse.
    let mut buf: [u8; 20] = [0u8;20];
    let mut ptr: usize = 0;
    let mut rest: u64 = n;
    proof {
        assert(pow10(0) == 1);
        assert(dec_text(n as nat) + rev_prefix(buf@, 0) =~= dec_text(n as nat));
    }
    while rest != 0
        invariant
            0 <= ptr <= 20,
            rest as nat * pow10(ptr as nat) <= n,
            rest == 0 ==> ptr > 0,
            forall|j: int| 0 <= j < ptr ==> 48 <= #[trigger] buf@[j] <= 57,
            digits_rev(buf@, ptr as int, rest as nat) == dec_text(n as nat),
            ptr == 0 ==> rest == n,
            n > 0,
        decreases rest,
    {
        proof {
            lemma_pow10_bound(ptr as nat, rest as nat, n as nat);
        }
        let digit = (rest % 10) as u8 + 48;
        let ghost old_buf = buf@;
        let ghost old_rest = rest;
        buf[ptr] = digit;
        rest = rest / 10;
        proof {
            lemma_digits_step(old_buf, buf@, ptr as int, old_rest as nat, n as nat);
            assert(rest as nat * pow10((ptr + 1) as nat) <= n) by {
                reveal_with_fuel(pow10, 2);
                assert(pow10((ptr + 1) as nat) == 10 * pow10(ptr as nat));
                assert((old_rest / 10) * 10 <= old_rest);
                assert((rest as nat) * (10 * pow10(ptr as nat)) <= (old_rest as nat) * pow10(
                    ptr as nat,
                )) by (nonlinear_arith)
                    requires
                        rest as nat * 10 <= old_rest as nat,
                ;
            }
        }
        ptr = ptr + 1;
    }
    let ghost printed: Seq<u8> = Seq::empty();
    let ghost total = ptr;
    proof {
        assert(old(out)@ + printed =~= old(out)@);
    }
    while ptr > 0
        invariant
            0 <= ptr <= total <= 20,
            out@ == old(out)@ + printed,
            printed + rev_prefix(buf@, ptr as int) == rev_prefix(buf@, total as int),
        decreases ptr,
    {
        ptr = ptr - 1;
        hprint_char(buf[ptr], out);
        proof {
            let next = printed.push(buf@[ptr as int]);
            assert(rev_prefix(buf@, ptr + 1) == seq![buf@[ptr as int]] + rev_prefix(
                buf@,
                ptr as int,
            ));
            assert(next + rev_prefix(buf@, ptr as int) =~= printed + rev_prefix(buf@, ptr + 1));
            printed = next;
            assert(out@ =~= old(out)@ + printed);
        }
    }
    proof {
        assert(printed + rev_prefix(buf@, 0) =~= printed);
    }
}

/// 10 to the power of `n`.
pub open spec fn pow10(n: nat) -> nat
    decreases n,
{
    if n == 0 {
        1
    } else {
        10 * pow10((n - 1) as nat)
    }
}

/// The first `n` bytes of `buf` in reverse order.
pub open spec fn rev_prefix(buf: Seq<u8>, n: int) -> Seq<u8>
    decreases n,
{
    if n <= 0 {
        Seq::<u8>::empty()
    } else {
        seq![buf[n - 1]] + rev_prefix(buf, n - 1)
    }
}

/// The digits of `rest`, where it is not 0, followed by the first `n` bytes
/// of `buf` in reverse order.
pub open spec fn digits_rev(buf: Seq<u8>, n: int, rest: nat) -> Seq<u8> {
    if rest == 0 {
        rev_prefix(buf, n)
    } else {
        dec_text(rest) + rev_prefix(buf, n)
    }
}

/// Twenty digits are enough for a 64-bit number.
proof fn lemma_pow10_bound(ptr: nat, rest: nat, n: nat)
    requires
        rest * pow10(ptr) <= n,
        rest > 0,
        n < 0x1_0000_0000_0000_0000,
        ptr <= 20,
    ensures
        ptr < 20,
{
    reveal_with_fuel(pow10, 21);
    if ptr == 20 {
        assert(pow10(20) == 100000000000000000000);
        assert(rest * pow10(20) >= pow10(20)) by (nonlinear_arith)
            requires
                rest >= 1,
        ;
    }
}

/// Taking the lowest digit off `rest` and keeping it in the buffer leaves
/// the digits of the number as they were.
proof fn lemma_digits_step(old_buf: Seq<u8>, buf: Seq<u8>, ptr: int, rest: nat, n: nat)
    requires
        0 <= ptr < old_buf.len(),
        rest > 0,
        buf == old_buf.update(ptr, ((rest % 10) + 48) as u8),
        digits_rev(old_buf, ptr, rest) == dec_text(n),
    ensures
        rest / 10 > 0 ==> digits_rev(buf, ptr + 1, rest / 10) == dec_text(n),
        rest / 10 == 0 ==> digits_rev(buf, ptr + 1, 0) == dec_text(n),
        48 <= buf[ptr] <= 57,
{
    lemma_rev_prefix_same(old_buf, buf, ptr);
    let d = ((rest % 10) + 48) as u8;
    assert(rev_prefix(buf, ptr + 1) == seq![d] + rev_prefix(buf, ptr));
    if rest < 10 {
        assert(dec_text(rest) =~= seq![d]);
        assert(dec_text(rest) + rev_prefix(old_buf, ptr) =~= seq![d] + rev_prefix(buf, ptr));
    } else {
        assert(dec_text(rest) == dec_text(rest / 10).push(d));
        assert(dec_text(rest / 10).push(d) + rev_prefix(old_buf, ptr) =~= dec_text(rest / 10) + (
        seq![d] + rev_prefix(buf, ptr)));
    }
}

/// The reversed prefix goes by the bytes of the prefix alone.
proof fn lemma_rev_prefix_same(a: Seq<u8>, b: Seq<u8>, n: int)
    requires
        forall|j: int| 0 <= j < n ==> a[j] == b[j],
    ensures
        rev_prefix(a, n) == rev_prefix(b, n),
    decreases n,
{
    if n > 0 {
        lemma_rev_prefix_same(a, b, n - 1);
    }
}

/// Prints a hardware address: six hexadecimal bytes with colons between.
pub fn hprint_mac(s: &[u8; 6], out: &mut Vec<u8>)
    ensures
        final(out)@ == old(out)@ + mac_text(*s),
{
    let mut i: usize = 0;
    while i < 5
        invariant
            0 <= i <= 5,
            out@ == old(out)@ + mac_prefix(*s, i as int),
        decreases 5 - i,
    {
        hprint_hex_byte(s[i], out);
        hprint_char(58, out);
        proof {
            assert(out@ =~= old(out)@ + mac_prefix(*s, i + 1));
        }
        i = i + 1;
    }
    hprint_hex_byte(s[5], out);
    proof {
        reveal_with_fuel(mac_prefix, 6);
        assert(out@ =~= old(out)@ + mac_text(*s));
    }
}

/// The first `n` bytes of a hardware address, each with the colon after it.
pub open spec fn mac_prefix(s: [u8; 6], n: int) -> Seq<u8>
    decreases n,
{
    if n <= 0 {
        Seq::<u8>::empty()
    } else {
        mac_prefix(s, n - 1) + hex_byte(s[n - 1]) + seq![58u8]
    }
}

/// The first `n` bytes of an address, each in decimal with the dot after it.
pub open spec fn ip_prefix(s: [u8; 4], n: int) -> Seq<u8>
    decreases n,
{
    if n <= 0 {
        Seq::<u8>::empty()
    } else {
        ip_prefix(s, n - 1) + dec_text(s[n - 1] as nat) + seq![46u8]
    }
}

/// Prints an IPv4 address in dotted decimal.
pub fn hprint_ip(s: &[u8; 4], out: &mut Vec<u8>)
    ensures
        final(out)@ == old(out)@ + ip_text(*s),
{
    let mut i: usize = 0;
    while i < 3
        invariant
            0 <= i <= 3,
            out@ == old(out)@ + ip_prefix(*s, i as int),
        decreases 3 - i,
    {
        hprint_dec(s[i] as u64, out);
        hprint_char(46, out);
        proof {
            assert(out@ =~= old(out)@ + ip_prefix(*s, i + 1));
        }
        i = i + 1;
    }
    hprint_dec(s[3] as u64, out);
    proof {
        reveal_with_fuel(ip_prefix, 4);
        assert(out@ =~= old(out)@ + ip_text(*s));
    }
}

/// Microseconds that `cycles` cycles of the counter take.
pub fn cycles_to_usec(cycles: u64) -> (r: u64)
    ensures
        r == cycles / CLOCK_FREQ,
{
    cycles / CLOCK_FREQ
}

/// Reads the machine's cycle counter through `riscv::register::mcycle`.
/// Nothing is claimed of the value, which is the time; `None` is what the
/// crate reports on a machine without the register.
#[verifier::external_body]
fn read_cycles() -> (r: Option<u64>) {
    match riscv::register::mcycle::try_read() {
        Ok(c) => Some(c as u64),
        Err(_) => None,
    }
}

/// The time since start in microseconds, where the machine has a cycle
/// counter.
pub fn cur_time() -> (r: Option<u64>)
    ensures
        r matches Some(t) ==> t <= u64::MAX / CLOCK_FREQ,
{
    time_of_reading(read_cycles())
}

/// The time that a reading of the cycle counter stands for: the
/// microseconds that its cycles take, and nothing where the machine gave no
/// reading.
pub fn time_of_reading(reading: Option<u64>) -> (r: Option<u64>)
    ensures
        r == (match reading {
            Some(c) => Some((c / CLOCK_FREQ) as u64),
            None => None::<u64>,
        }),
{
    match reading {
        Some(c) => Some(cycles_to_usec(c)),
        None => None,
    }
}

} // verus!
