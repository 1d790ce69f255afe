use vstd::arithmetic::power2::{pow2, lemma_pow2_unfold, lemma_pow2_pos, lemma_pow2_strictly_increases};
use vstd::prelude::*;

verus! {

/// Why a read from the bitstream failed.
#[derive(Debug, Clone, Copy, PartialEq, Eq, Structural)]
pub enum BitstreamError {
    /// The reader ran past the last bit of its buffer.
    EndOfData,
    /// An Exp-Golomb code had more than 31 leading zero bits.
    MalformedCode,
    /// A field held a value outside the range the syntax allows.
    ValueOutOfRange,
    /// A slice referenced a parameter set that has not been parsed.
    ParameterSetNotFound,
    /// The stream uses a syntax feature this decoder does not handle.
    Unsupported,
}

/// Number of bits in a byte buffer.
pub open spec fn nbits(data: Seq<u8>) -> int {
    8 * data.len() as int
}

/// Bit `p` of the buffer, most significant bit of each byte first.
pub open spec fn bit_at(data: Seq<u8>, p: int) -> bool {
    ((data[p / 8] >> ((7 - p % 8) as u8)) & 1u8) == 1u8
}

pub open spec fn bit_val(data: Seq<u8>, p: int) -> nat {
    if bit_at(data, p) { 1 } else { 0 }
}

/// The `n` bits starting at `p`, read as an unsigned big-endian number.
pub open spec fn bits_val(data: Seq<u8>, p: int, n: nat) -> nat
    decreases n,
{
    if n == 0 {
        0
    } else {
        2 * bits_val(data, p, (n - 1) as nat) + bit_val(data, p + n - 1)
    }
}

/// Counting the leading zero bits of an Exp-Golomb code at `p`, `z` of them
/// already seen: the full count, or why it cannot be had.
pub open spec fn ue_zeros(data: Seq<u8>, p: int, z: nat) -> Result<nat, BitstreamError>
    decreases 32 - z,
{
    if z > 31 {
        Err(BitstreamError::MalformedCode)
    } else if p + z >= nbits(data) {
        Err(BitstreamError::EndOfData)
    } else if bit_at(data, p + z) {
        Ok(z)
    } else if z + 1 > 31 {
        Err(BitstreamError::MalformedCode)
    } else {
        ue_zeros(data, p, z + 1)
    }
}

/// The unsigned Exp-Golomb code at bit `p`: its value and the bit position
/// just after it.
pub open spec fn ue_decode(data: Seq<u8>, p: int) -> Result<(nat, int), BitstreamError> {
    match ue_zeros(data, p, 0) {
        Err(e) => Err(e),
        Ok(z) => if p + 2 * z + 1 > nbits(data) {
            Err(BitstreamError::EndOfData)
        } else {
            Ok(((pow2(z) - 1 + bits_val(data, p + z + 1, z)) as nat, p + 2 * z + 1))
        },
    }
}

pub proof fn lemma_bits_val_bound(data: Seq<u8>, p: int, n: nat)
    ensures
        bits_val(data, p, n) < pow2(n),
    decreases n,
{
    if n > 0 {
        lemma_bits_val_bound(data, p, (n - 1) as nat);
        lemma_pow2_unfold(n);
    } else {
        vstd::arithmetic::power2::lemma2_to64();
    }
}

/// Position of the highest set bit of `m`.
pub open spec fn log2_floor(m: nat) -> nat
    decreases m,
{
    if m < 2 {
        0
    } else {
        1 + log2_floor(m / 2)
    }
}

/// The low `n` bits of `v`, most significant first.
pub open spec fn binary(v: nat, n: nat) -> Seq<bool>
    decreases n,
{
    if n == 0 {
        Seq::empty()
    } else {
        binary(v / 2, (n - 1) as nat).push(v % 2 == 1)
    }
}

/// The canonical unsigned Exp-Golomb code of `k`: as many zeros as `k + 1`
/// has bits after its leading one, then `k + 1` in binary.
pub open spec fn ue_code(k: nat) -> Seq<bool> {
    let z = log2_floor(k + 1);
    Seq::new(z, |i: int| false) + seq![true] + binary((k + 1 - pow2(z)) as nat, z)
}

/// The buffer holds `code` starting at bit `p`.
pub open spec fn holds_bits(data: Seq<u8>, p: int, code: Seq<bool>) -> bool {
    &&& 0 <= p
    &&& p + code.len() <= nbits(data)
    &&& forall|i: int| 0 <= i < code.len() ==> bit_at(data, p + i) == code[i]
}

proof fn lemma_log2_floor(m: nat)
    requires
        m >= 1,
    ensures
        pow2(log2_floor(m)) <= m < pow2(log2_floor(m) + 1),
    decreases m,
{
    lemma_pow2_unfold(log2_floor(m) + 1);
    if m < 2 {
        vstd::arithmetic::power2::lemma2_to64();
    } else {
        lemma_log2_floor(m / 2);
        lemma_pow2_unfold(log2_floor(m));
    }
}

proof fn lemma_binary_len(v: nat, n: nat)
    ensures
        binary(v, n).len() == n,
    decreases n,
{
    if n > 0 {
        lemma_binary_len(v / 2, (n - 1) as nat);
    }
}

proof fn lemma_binary_bits(data: Seq<u8>, q: int, v: nat, n: nat)
    requires
        v < pow2(n),
        forall|i: int| 0 <= i < n ==> bit_at(data, q + i) == #[trigger] binary(v, n)[i],
    ensures
        bits_val(data, q, n) == v,
    decreases n,
{
    lemma_binary_len(v, n);
    if n == 0 {
        vstd::arithmetic::power2::lemma2_to64();
    } else {
        let m = (n - 1) as nat;
        lemma_pow2_unfold(n);
        lemma_binary_len(v / 2, m);
        assert forall|i: int| 0 <= i < m implies bit_at(data, q + i) == #[trigger] binary(
            v / 2,
            m,
        )[i] by {
            assert(binary(v, n)[i] == binary(v / 2, m)[i]);
        }
        lemma_binary_bits(data, q, v / 2, m);
        assert(bit_at(data, q + m) == binary(v, n)[m as int]);
    }
}

proof fn lemma_zero_run(data: Seq<u8>, p: int, z: nat, j: nat)
    requires
        j <= z <= 31,
        p + z < nbits(data),
        forall|i: int| 0 <= i < z ==> !#[trigger] bit_at(data, p + i),
        bit_at(data, p + z),
    ensures
        ue_zeros(data, p, j) == Ok::<nat, BitstreamError>(z),
    decreases z - j,
{
    if j < z {
        assert(!bit_at(data, p + j));
        lemma_zero_run(data, p, z, j + 1);
    }
}

/// Decoding reverses encoding: wherever the buffer holds the canonical
/// Exp-Golomb code of `k` (any value an unsigned code read can return), the
/// decoder yields `k` and stops right after the code.
pub proof fn lemma_ue_round_trip(data: Seq<u8>, p: int, k: nat)
    requires
        k < 0xffff_ffff,
        holds_bits(data, p, ue_code(k)),
    ensures
        ue_decode(data, p) == Ok::<(nat, int), BitstreamError>((k, p + ue_code(k).len())),
{
    let m = k + 1;
    let z = log2_floor(m);
    lemma_log2_floor(m);
    vstd::arithmetic::power2::lemma2_to64();
    if z > 31 {
        lemma_pow2_strictly_increases(32, z);
    }
    lemma_pow2_unfold(z + 1);
    let s = (m - pow2(z)) as nat;
    lemma_binary_len(s, z);
    let code = ue_code(k);
    assert(code.len() == 2 * z + 1);
    assert forall|i: int| 0 <= i < z implies !#[trigger] bit_at(data, p + i) by {
        assert(code[i] == false);
    }
    assert(code[z as int] == true);
    lemma_zero_run(data, p, z, 0);
    assert forall|i: int| 0 <= i < z implies bit_at(data, (p + z + 1) + i) == #[trigger] binary(
        s,
        z,
    )[i] by {
        assert(code[z + 1 + i] == binary(s, z)[i]);
        assert(p + (z + 1 + i) == (p + z + 1) + i);
    }
    lemma_binary_bits(data, p + z + 1, s, z);
}

/// A one-bit flag at `p`, and the position after it.
pub open spec fn flag_at(d: Seq<u8>, p: int) -> Result<(bool, int), BitstreamError> {
    if p < nbits(d) {
        Ok((bit_at(d, p), p + 1))
    } else {
        Err(BitstreamError::EndOfData)
    }
}

/// `n` bits at `p` as a number, and the position after them.
pub open spec fn bits_at(d: Seq<u8>, p: int, n: nat) -> Result<(nat, int), BitstreamError> {
    if p + n <= nbits(d) {
        Ok((bits_val(d, p, n), p + n))
    } else {
        Err(BitstreamError::EndOfData)
    }
}

/// An unsigned code at `p` that must not exceed `max`, and the position
/// after it.
pub open spec fn ue_max_at(d: Seq<u8>, p: int, max: nat) -> Result<(nat, int), BitstreamError> {
    match ue_decode(d, p) {
        Err(e) => Err(e),
        Ok((v, q)) => if v <= max {
            Ok((v, q))
        } else {
            Err(BitstreamError::ValueOutOfRange)
        },
    }
}

/// A signed code at `p` that must lie in `lo..=hi`, and the position after
/// it.
pub open spec fn se_range_at(d: Seq<u8>, p: int, lo: int, hi: int) -> Result<(int, int), BitstreamError> {
    match ue_decode(d, p) {
        Err(e) => Err(e),
        Ok((k, q)) => if lo <= se_of(k) <= hi {
            Ok((se_of(k), q))
        } else {
            Err(BitstreamError::ValueOutOfRange)
        },
    }
}

/// Position after `n` codes (signed or unsigned, the same width) from `p`.
pub open spec fn codes_at(d: Seq<u8>, p: int, n: nat) -> Result<int, BitstreamError>
    decreases n,
{
    if n == 0 {
        Ok(p)
    } else {
        match ue_decode(d, p) {
            Err(e) => Err(e),
            Ok((_, q)) => codes_at(d, q, (n - 1) as nat),
        }
    }
}

/// Signed value of the unsigned code `k`: 0, 1, -1, 2, -2, ...
pub open spec fn se_of(k: nat) -> int {
    if k % 2 == 1 {
        ((k + 1) / 2) as int
    } else {
        -((k / 2) as int)
    }
}

/// Bit cursor over a byte slice.
pub struct BitReader<'a> {
    data: &'a [u8],
    byte_pos: usize,
    bit_pos: u8,
}

impl<'a> BitReader<'a> {
    pub closed spec fn bytes(&self) -> Seq<u8> {
        self.data@
    }

    /// Bits consumed so far.
    pub closed spec fn pos(&self) -> int {
        self.byte_pos * 8 + self.bit_pos
    }

    pub closed spec fn wf(&self) -> bool {
        &&& self.bit_pos < 8
        &&& self.byte_pos <= self.data@.len()
        &&& self.byte_pos == self.data@.len() ==> self.bit_pos == 0
    }

    /// The cursor never passes the end of its buffer.
    pub proof fn lemma_pos_bound(&self)
        requires
            self.wf(),
        ensures
            0 <= self.pos() <= nbits(self.bytes()),
    {
    }

    pub fn new(data: &'a [u8]) -> (r: Self)
        ensures
            r.wf(),
            r.bytes() == data@,
            r.pos() == 0,
    {
        BitReader { data, byte_pos: 0, bit_pos: 0 }
    }

    /// Reads one bit.
    pub fn read_bit(&mut self) -> (r: Result<u8, BitstreamError>)
        requires
            old(self).wf(),
        ensures
            final(self).wf(),
            final(self).bytes() == old(self).bytes(),
            match r {
                Ok(b) => old(self).pos() < nbits(old(self).bytes()) && b as nat == bit_val(
                    old(self).bytes(),
                    old(self).pos(),
                ) && final(self).pos() == old(self).pos() + 1,
                Err(e) => old(self).pos() >= nbits(old(self).bytes()) && e
                    == BitstreamError::EndOfData && *final(self) == *old(self),
            },
    {
        if self.byte_pos >= self.data.len() {
            return Err(BitstreamError::EndOfData);
        }
        let byte = self.data[self.byte_pos];
        let shift: u8 = 7 - self.bit_pos;
        let bit: u8 = (byte >> shift) & 1;
        assert(bit == 0 || bit == 1) by (bit_vector)
            requires
                bit == (byte >> shift) & 1u8,
        ;
        proof {
            let p = self.pos();
            assert(p / 8 == self.byte_pos as int && p % 8 == self.bit_pos as int);
        }
        self.bit_pos = self.bit_pos + 1;
        if self.bit_pos >= 8 {
            self.bit_pos = 0;
            self.byte_pos = self.byte_pos + 1;
        }
        Ok(bit)
    }

    /// Reads `n` bits as an unsigned big-endian number.
    pub fn read_bits(&mut self, n: u8) -> (r: Result<u32, BitstreamError>)
        requires
            old(self).wf(),
            n <= 32,
        ensures
            final(self).wf(),
            final(self).bytes() == old(self).bytes(),
            match r {
                Ok(v) => old(self).pos() + n <= nbits(old(self).bytes()) && v as nat == bits_val(
                    old(self).bytes(),
                    old(self).pos(),
                    n as nat,
                ) && v < pow2(n as nat) && final(self).pos() == old(self).pos() + n,
                Err(e) => old(self).pos() + n > nbits(old(self).bytes()) && e
                    == BitstreamError::EndOfData,
            },
    {
        let ghost start = self.pos();
        let mut val: u32 = 0;
        let mut i: u8 = 0;
        proof {
            vstd::arithmetic::power2::lemma2_to64();
        }
        while i < n
            invariant
                self.wf(),
                self.bytes() == old(self).bytes(),
                start == old(self).pos(),
                i <= n,
                n <= 32,
                self.pos() == start + i,
                val as nat == bits_val(self.bytes(), start, i as nat),
                val < pow2(i as nat),
            decreases n - i,
        {
            let b = self.read_bit();
            match b {
                Err(e) => {
                    return Err(e);
                },
                Ok(bit) => {
                    proof {
                        lemma_pow2_unfold((i + 1) as nat);
                        if i + 1 < 32 {
                            lemma_pow2_strictly_increases((i + 1) as nat, 32);
                        }
                        vstd::arithmetic::power2::lemma2_to64();
                    }
                    val = val * 2 + bit as u32;
                    i = i + 1;
                },
            }
        }
        Ok(val)
    }

    /// Reads an unsigned Exp-Golomb code.
    pub fn read_ue(&mut self) -> (r: Result<u32, BitstreamError>)
        requires
            old(self).wf(),
        ensures
            final(self).wf(),
            final(self).bytes() == old(self).bytes(),
            match ue_decode(old(self).bytes(), old(self).pos()) {
                Ok((v, q)) => r is Ok && r->Ok_0 as nat == v && v < 0xffff_ffff && final(self).pos()
                    == q,
                Err(e) => r == Err::<u32, BitstreamError>(e),
            },
    {
        let ghost start = self.pos();
        let ghost bytes = self.bytes();
        let mut leading_zeros: u32 = 0;
        loop
            invariant_except_break
                self.pos() == start + leading_zeros,
            invariant
                self.wf(),
                self.bytes() == bytes,
                bytes == old(self).bytes(),
                start == old(self).pos(),
                leading_zeros <= 31,
                ue_zeros(bytes, start, 0) == ue_zeros(bytes, start, leading_zeros as nat),
            ensures
                self.pos() == start + leading_zeros + 1,
                start + leading_zeros < nbits(bytes),
                bit_at(bytes, start + leading_zeros),
            decreases 32 - leading_zeros,
        {
            let b = self.read_bit();
            match b {
                Err(e) => {
                    return Err(e);
                },
                Ok(bit) => {
                    if bit != 0 {
                        break;
                    }
                    if leading_zeros + 1 > 31 {
                        return Err(BitstreamError::MalformedCode);
                    }
                    leading_zeros = leading_zeros + 1;
                },
            }
        }
        proof {
            assert(ue_zeros(bytes, start, 0) == Ok::<nat, BitstreamError>(leading_zeros as nat));
        }
        if leading_zeros == 0 {
            proof {
                lemma_pow2_pos(0);
                assert(pow2(0) == 1) by { vstd::arithmetic::power2::lemma2_to64(); }
            }
            return Ok(0);
        }
        let suffix = self.read_bits(leading_zeros as u8);
        match suffix {
            Err(e) => Err(e),
            Ok(val) => {
                let mut p: u64 = 1;
                let mut j: u32 = 0;
                proof {
                    vstd::arithmetic::power2::lemma2_to64();
                    lemma_bits_val_bound(bytes, start + leading_zeros + 1, leading_zeros as nat);
                }
                while j < leading_zeros
                    invariant
                        j <= leading_zeros,
                        leading_zeros <= 31,
                        p as nat == pow2(j as nat),
                    decreases leading_zeros - j,
                {
                    proof {
                        lemma_pow2_unfold((j + 1) as nat);
                        lemma_pow2_strictly_increases((j + 1) as nat, 32);
                        vstd::arithmetic::power2::lemma2_to64();
                    }
                    p = p * 2;
                    j = j + 1;
                }
                proof {
                    lemma_pow2_pos(leading_zeros as nat);
                    lemma_pow2_strictly_increases(leading_zeros as nat, 32);
                    vstd::arithmetic::power2::lemma2_to64();
                    assert(pow2(0) == 1);
                }
                let v: u64 = p - 1 + val as u64;
                Ok(v as u32)
            },
        }
    }

    /// Reads a signed Exp-Golomb code.
    pub fn read_se(&mut self) -> (r: Result<i32, BitstreamError>)
        requires
            old(self).wf(),
        ensures
            final(self).wf(),
            final(self).bytes() == old(self).bytes(),
            match ue_decode(old(self).bytes(), old(self).pos()) {
                Ok((v, q)) => r is Ok && r->Ok_0 as int == se_of(v) && final(self).pos() == q,
                Err(e) => r == Err::<i32, BitstreamError>(e),
            },
    {
        let ue = self.read_ue();
        match ue {
            Err(e) => Err(e),
            Ok(k) => {
                proof {
                    vstd::arithmetic::power2::lemma2_to64();
                }
                if k % 2 == 1 {
                    Ok(((k as u64 + 1) / 2) as i32)
                } else {
                    Ok(-((k / 2) as i32))
                }
            },
        }
    }

    /// Reads a one-bit flag.
    pub fn read_flag(&mut self) -> (r: Result<bool, BitstreamError>)
        requires
            old(self).wf(),
        ensures
            final(self).wf(),
            final(self).bytes() == old(self).bytes(),
            match flag_at(old(self).bytes(), old(self).pos()) {
                Ok((b, q)) => r == Ok::<bool, BitstreamError>(b) && final(self).pos() == q,
                Err(e) => r == Err::<bool, BitstreamError>(e),
            },
    {
        let b = self.read_bit()?;
        Ok(b != 0)
    }

    /// Reads an unsigned code that must not exceed `max`.
    pub fn read_ue_max(&mut self, max: u32) -> (r: Result<u32, BitstreamError>)
        requires
            old(self).wf(),
        ensures
            final(self).wf(),
            final(self).bytes() == old(self).bytes(),
            r matches Ok(v) ==> v <= max,
            match ue_max_at(old(self).bytes(), old(self).pos(), max as nat) {
                Ok((v, q)) => r == Ok::<u32, BitstreamError>(v as u32) && final(self).pos() == q,
                Err(e) => r == Err::<u32, BitstreamError>(e),
            },
    {
        let v = self.read_ue()?;
        if v > max {
            return Err(BitstreamError::ValueOutOfRange);
        }
        Ok(v)
    }

    /// Reads a signed code that must lie in `lo..=hi`.
    pub fn read_se_range(&mut self, lo: i32, hi: i32) -> (r: Result<i32, BitstreamError>)
        requires
            old(self).wf(),
        ensures
            final(self).wf(),
            final(self).bytes() == old(self).bytes(),
            r matches Ok(v) ==> lo <= v <= hi,
            match se_range_at(old(self).bytes(), old(self).pos(), lo as int, hi as int) {
                Ok((v, q)) => r == Ok::<i32, BitstreamError>(v as i32) && final(self).pos() == q,
                Err(e) => r == Err::<i32, BitstreamError>(e),
            },
    {
        let v = self.read_se()?;
        if v < lo || v > hi {
            return Err(BitstreamError::ValueOutOfRange);
        }
        Ok(v)
    }

    /// Skips `n` Exp-Golomb codes.
    pub fn skip_codes(&mut self, n: u32) -> (r: Result<(), BitstreamError>)
        requires
            old(self).wf(),
        ensures
            final(self).wf(),
            final(self).bytes() == old(self).bytes(),
            match codes_at(old(self).bytes(), old(self).pos(), n as nat) {
                Ok(q) => r is Ok && final(self).pos() == q,
                Err(e) => r == Err::<(), BitstreamError>(e),
            },
    {
        let mut i: u32 = 0;
        while i < n
            invariant
                self.wf(),
                self.bytes() == old(self).bytes(),
                i <= n,
                codes_at(old(self).bytes(), old(self).pos(), n as nat) == codes_at(
                    self.bytes(),
                    self.pos(),
                    (n - i) as nat,
                ),
            decreases n - i,
        {
            self.read_ue()?;
            i = i + 1;
        }
        Ok(())
    }

    /// Skips `n` bits.
    pub fn skip_bits(&mut self, n: u32) -> (r: Result<(), BitstreamError>)
        requires
            old(self).wf(),
        ensures
            final(self).wf(),
            final(self).bytes() == old(self).bytes(),
            match r {
                Ok(_) => old(self).pos() + n <= nbits(old(self).bytes()) && final(self).pos()
                    == old(self).pos() + n,
                Err(e) => old(self).pos() + n > nbits(old(self).bytes()) && e
                    == BitstreamError::EndOfData,
            },
    {
        let ghost start = self.pos();
        let mut i: u32 = 0;
        while i < n
            invariant
                self.wf(),
                self.bytes() == old(self).bytes(),
                start == old(self).pos(),
                i <= n,
                self.pos() == start + i,
            decreases n - i,
        {
            let b = self.read_bit();
            if b.is_err() {
                return Err(BitstreamError::EndOfData);
            }
            i = i + 1;
        }
        Ok(())
    }

    /// Number of bits consumed so far.
    pub fn position(&self) -> (r: usize)
        requires
            self.wf(),
            self.bytes().len() * 8 <= usize::MAX,
        ensures
            r == self.pos(),
    {
        self.byte_pos * 8 + self.bit_pos as usize
    }

    /// Whether any byte is left to read from.
    pub fn has_more_data(&self) -> (r: bool)
        requires
            self.wf(),
        ensures
            r == (self.pos() < nbits(self.bytes())),
    {
        self.byte_pos < self.data.len()
    }
}

} // verus!
