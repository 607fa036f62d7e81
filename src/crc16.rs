//! CRC-16/XMODEM: polynomial 0x1021, bits taken most significant first,
//! register starting at zero, two zero bytes appended to flush the register.
use vstd::prelude::*;

verus! {

/// The feedback polynomial, without its implicit top term.
pub const POLY: u32 = 0x1021;

/// Bit `k` of `b`, counted from the most significant bit (`k == 0`) down.
pub open spec fn msb_bit(b: u8, k: int) -> bool {
    (b >> ((7 - k) as u8)) & 1u8 == 1u8
}

/// The bits of `s`, eight per byte, each byte most significant bit first.
pub open spec fn bits_of(s: Seq<u8>) -> Seq<bool> {
    Seq::new(8 * s.len(), |n: int| msb_bit(s[n / 8], n % 8))
}

/// One step of the register: shift left, bring `bit` in at bit 0, and when
/// the value has grown past 16 bits keep its low 16 bits and add the polynomial.
pub open spec fn shift_in(reg: u16, bit: bool) -> u16 {
    let wide: u32 = ((reg as u32) << 1u32) | (if bit { 1u32 } else { 0u32 });
    if wide > 0xFFFF {
        ((wide & 0xFFFF) ^ POLY) as u16
    } else {
        wide as u16
    }
}

/// The register after feeding `bits`, in order, into a register that starts at zero.
pub open spec fn register_after(bits: Seq<bool>) -> u16
    decreases bits.len(),
{
    if bits.len() == 0 {
        0
    } else {
        shift_in(register_after(bits.drop_last()), bits.last())
    }
}

/// The payload followed by the two zero bytes that flush the register.
pub open spec fn extended(p: Seq<u8>) -> Seq<u8> {
    p + seq![0u8, 0u8]
}

/// The checksum of `p`.
pub open spec fn crc16_of(p: Seq<u8>) -> u16 {
    register_after(bits_of(extended(p)))
}

/// The bits of one byte, most significant first.
pub open spec fn byte_bits(b: u8) -> Seq<bool> {
    Seq::new(8, |k: int| msb_bit(b, k))
}

/// Appending a byte appends its eight bits.
proof fn lemma_bits_of_push(s: Seq<u8>, b: u8)
    ensures
        bits_of(s.push(b)) == bits_of(s) + byte_bits(b),
{
    let l = bits_of(s.push(b));
    let r = bits_of(s) + byte_bits(b);
    let m = s.len() as int;
    assert forall|n: int| 0 <= n < 8 * m + 8 implies #[trigger] l[n] == r[n] by {
        if n < 8 * m {
            assert(0 <= n / 8 < m) by (nonlinear_arith)
                requires
                    0 <= n < 8 * m,
            ;
        } else {
            assert(n / 8 == m && n % 8 == n - 8 * m) by (nonlinear_arith)
                requires
                    8 * m <= n < 8 * m + 8,
            ;
        }
    }
    assert(l =~= r);
}

/// One register step on the executable register, which holds a value in `[0, 0xFFFF]`.
fn shift_in_bit(reg: i32, bit: bool) -> (r: i32)
    requires
        0 <= reg <= 0xFFFF,
    ensures
        0 <= r <= 0xFFFF,
        r == shift_in(reg as u16, bit) as i32,
{
    assert(0 <= reg <= 0xFFFF ==> reg << 1i32 == 2 * reg) by (bit_vector);
    let mut next: i32 = reg << 1;
    if bit {
        next = next + 1;
    }
    if next > 0xFFFF {
        next = (next & 0xFFFF) ^ (POLY as i32);
    }
    proof {
        let c: u32 = if bit { 1u32 } else { 0u32 };
        assert(0 <= reg <= 0xFFFF && c <= 1 ==> {
            let wide: i32 = ((reg << 1i32) + (c as i32)) as i32;
            let u: u32 = ((reg as u16 as u32) << 1u32) | c;
            &&& wide as u32 == u
            &&& 0 <= wide < 0x20000
            &&& (wide > 0xFFFF ==> (u & 0xFFFF) ^ 0x1021u32 == ((wide & 0xFFFF) ^ 0x1021i32) as u32)
            &&& (wide > 0xFFFF ==> 0 <= (wide & 0xFFFF) ^ 0x1021i32 <= 0xFFFF)
        }) by (bit_vector);
    }
    next
}

/// The CRC-16/XMODEM checksum of `payload`, widened to an `i32` whose upper
/// bits are zero.
pub fn crc16(payload: &[u8]) -> (r: i32)
    ensures
        0 <= r <= 0xFFFF,
        r == crc16_of(payload@) as i32,
{
    let mut ext: Vec<u8> = Vec::new();
    ext.extend_from_slice(payload);
    ext.push(0u8);
    ext.push(0u8);
    assert(ext@ =~= extended(payload@));
    let mut reg: i32 = 0;
    let mut i: usize = 0;
    while i < ext.len()
        invariant
            ext@ == extended(payload@),
            i <= ext@.len(),
            0 <= reg <= 0xFFFF,
            reg == register_after(bits_of(ext@.take(i as int))) as i32,
        decreases ext@.len() - i,
    {
        let byte: u8 = ext[i];
        let ghost before = bits_of(ext@.take(i as int));
        let mut mask: i32 = 0x80;
        let ghost mut k: u32 = 0;
        assert(0x80i32 >> 0u32 == 0x80i32) by (bit_vector);
        assert(byte_bits(byte).take(0) =~= Seq::<bool>::empty());
        assert(before + byte_bits(byte).take(0) =~= before);
        while mask > 0
            invariant
                k <= 8,
                mask == 0x80i32 >> k,
                0 <= reg <= 0xFFFF,
                reg == register_after(before + byte_bits(byte).take(k as int)) as i32,
            decreases 8 - k,
        {
            assert(k <= 8 && 0x80i32 >> k > 0 ==> k < 8) by (bit_vector);
            assert(k < 8 ==> (((byte as i32) & (0x80i32 >> k)) > 0 <==> (byte >> ((7 - k) as u8))
                & 1u8 == 1u8) && (0x80i32 >> k) >> 1i32 == 0x80i32 >> ((k + 1) as u32))
                by (bit_vector);
            let set = ((byte as i32) & mask) > 0;
            reg = shift_in_bit(reg, set);
            mask = mask >> 1;
            proof {
                let next = before + byte_bits(byte).take(k + 1);
                assert(next.drop_last() =~= before + byte_bits(byte).take(k as int));
                k = (k + 1) as u32;
            }
        }
        proof {
            assert(k <= 8 && 0x80i32 >> k <= 0 ==> k == 8) by (bit_vector);
            assert(byte_bits(byte).take(8) =~= byte_bits(byte));
            assert(ext@.take(i + 1) =~= ext@.take(i as int).push(byte));
            lemma_bits_of_push(ext@.take(i as int), byte);
        }
        i = i + 1;
    }
    assert(ext@.take(ext@.len() as int) =~= ext@);
    reg
}

/// Equal payloads have equal checksums: the checksum depends on the bytes alone.
pub proof fn lemma_crc16_deterministic(p: Seq<u8>, q: Seq<u8>)
    requires
        p == q,
    ensures
        crc16_of(p) == crc16_of(q),
{
}

/// For a fixed incoming bit, a register step is one to one; and the two
/// values of the incoming bit lead from one register to two different ones.
proof fn lemma_shift_in_injective(r1: u16, r2: u16, x: bool)
    ensures
        shift_in(r1, x) == shift_in(r2, x) ==> r1 == r2,
        shift_in(r1, true) != shift_in(r1, false),
{
    assert(shift_in(r1, true) == shift_in(r2, true) ==> r1 == r2) by (bit_vector);
    assert(shift_in(r1, false) == shift_in(r2, false) ==> r1 == r2) by (bit_vector);
    assert(shift_in(r1, true) != shift_in(r1, false)) by (bit_vector);
}

/// Two bit strings of one length that differ at exactly one place leave
/// the register in different states.
proof fn lemma_register_single_difference(a: Seq<bool>, b: Seq<bool>, m: int)
    requires
        a.len() == b.len(),
        0 <= m < a.len(),
        a[m] != b[m],
        forall|n: int| 0 <= n < a.len() && n != m ==> a[n] == b[n],
    ensures
        register_after(a) != register_after(b),
    decreases a.len(),
{
    let ra = register_after(a.drop_last());
    let rb = register_after(b.drop_last());
    if m == a.len() - 1 {
        assert(a.drop_last() =~= b.drop_last());
        lemma_shift_in_injective(ra, ra, a.last());
    } else {
        lemma_register_single_difference(a.drop_last(), b.drop_last(), m);
        assert(a.last() == b.last());
        lemma_shift_in_injective(ra, rb, a.last());
    }
}

/// Flipping any one bit of any payload changes its checksum.
pub proof fn lemma_single_bit_flip_changes_crc16(p: Seq<u8>, i: int, j: u8)
    requires
        0 <= i < p.len(),
        j < 8,
    ensures
        crc16_of(p.update(i, p[i] ^ (1u8 << j))) != crc16_of(p),
{
    let q = p.update(i, p[i] ^ (1u8 << j));
    let eq = extended(q);
    let ep = extended(p);
    assert(eq =~= ep.update(i, p[i] ^ (1u8 << j)));
    let a = bits_of(eq);
    let b = bits_of(ep);
    let m = 8 * i + 7 - j;
    assert(0 <= m < 8 * ep.len() && m / 8 == i && m % 8 == 7 - j) by (nonlinear_arith)
        requires
            0 <= i < p.len(),
            ep.len() == p.len() + 2,
            0 <= j < 8,
            m == 8 * i + 7 - j,
    ;
    let c = p[i];
    assert forall|k: u8| k < 8 implies (#[trigger] msb_bit(c ^ (1u8 << j), k as int) == msb_bit(c, k as int)
        <==> k != 7 - j) by {
        assert(k < 8 && j < 8 ==> ((((c ^ (1u8 << j)) >> ((7 - k) as u8)) & 1u8 == 1u8) == ((c >> ((7
            - k) as u8)) & 1u8 == 1u8) <==> k != 7 - j)) by (bit_vector);
    }
    assert(msb_bit(c ^ (1u8 << j), (7 - j) as u8 as int) != msb_bit(c, (7 - j) as u8 as int));
    assert forall|n: int| 0 <= n < a.len() && n != m implies a[n] == b[n] by {
        assert(0 <= n / 8 < ep.len() && 0 <= n % 8 < 8) by (nonlinear_arith)
            requires
                0 <= n < 8 * ep.len(),
        ;
        if n / 8 == i {
            assert(n % 8 != 7 - j) by (nonlinear_arith)
                requires
                    n / 8 == i,
                    n != 8 * i + 7 - j,
            ;
            assert(msb_bit(c ^ (1u8 << j), (n % 8) as u8 as int) == msb_bit(c, (n % 8) as u8 as int));
        }
    }
    lemma_register_single_difference(a, b, m);
}

} // verus!
