use crate::error::HuffmanError;
use vstd::prelude::*;

verus! {

/// One binary digit, held in a byte: 0 or 1.
pub type Bit = u8;

/// A sequence of bits, one per element.
pub type BitVec = Vec<Bit>;

/// The bits of one byte, most significant first.
pub type Byte = BitVec;

/// A bit sequence in its framed form, a marker before every seven data bits.
pub type PaddedBits = BitVec;

/// A bit sequence without framing.
pub type UnPaddedBits = BitVec;

/// Whether a value is one of the two bits.
pub open spec fn is_bit(b: Bit) -> bool {
    b == 0 || b == 1
}

/// Whether a character is one of the two that stand for a bit.
pub open spec fn is_bit_char(c: char) -> bool {
    c == '0' || c == '1'
}

/// The character that stands for a bit.
pub open spec fn bit_to_char(b: Bit) -> char {
    if b == 0 {
        '0'
    } else {
        '1'
    }
}

/// The bit that a character stands for.
pub open spec fn char_to_bit(c: char) -> Bit {
    if c == '0' {
        0
    } else {
        1
    }
}

/// Whether every element of a sequence is a bit.
pub open spec fn all_bits(bits: Seq<Bit>) -> bool {
    forall|i: int| 0 <= i < bits.len() ==> is_bit(#[trigger] bits[i])
}

/// Whether every character of a text stands for a bit.
pub open spec fn all_bit_chars(text: Seq<char>) -> bool {
    forall|i: int| 0 <= i < text.len() ==> is_bit_char(#[trigger] text[i])
}

/// A bit sequence written out, one character per bit.
pub open spec fn bits_to_text(bits: Seq<Bit>) -> Seq<char> {
    Seq::new(bits.len(), |i: int| bit_to_char(bits[i]))
}

/// The bit sequence that a text spells, one bit per character.
pub open spec fn text_to_bits(text: Seq<char>) -> Seq<Bit> {
    Seq::new(text.len(), |i: int| char_to_bit(text[i]))
}

/// Conversion between a bit and the character that stands for it.
pub trait ToFromChar: View<V = Bit> + Sized {
    /// The character `'0'` or `'1'` for this bit.
    fn to_char(&self) -> (c: char)
        requires
            is_bit(self@),
        ensures
            c == bit_to_char(self@),
    ;

    /// The bit that `c` stands for.
    fn from_char(c: char) -> (bit: Self)
        requires
            is_bit_char(c),
        ensures
            bit@ == char_to_bit(c),
    ;
}

impl ToFromChar for Bit {
    fn to_char(&self) -> (c: char) {
        if *self == 0 {
            '0'
        } else {
            '1'
        }
    }

    fn from_char(c: char) -> (bit: Self) {
        if c == '0' {
            0
        } else {
            1
        }
    }
}

/// Conversion between a bit sequence and its text of `'0'` and `'1'`.
pub trait BitVector: View<V = Seq<Bit>> {
    /// The text of this bit sequence, in order.
    fn to_string(&self) -> (text: String)
        requires
            all_bits(self@),
        ensures
            text@ == bits_to_text(self@),
    ;

    /// The bit sequence that `s` spells.
    fn from_string(s: &str) -> (bits: BitVec)
        requires
            all_bit_chars(s@),
        ensures
            bits@ == text_to_bits(s@),
    ;
}

impl BitVector for BitVec {
    fn to_string(&self) -> (text: String) {
        let mut text = String::new();
        let mut i: usize = 0;
        while i < self.len()
            invariant
                i <= self.len(),
                all_bits(self@),
                text@ == bits_to_text(self@.take(i as int)),
            decreases self.len() - i,
        {
            let c = self[i].to_char();
            proof {
                reveal_strlit("0");
                reveal_strlit("1");
            }
            if c == '0' {
                text.append("0");
            } else {
                text.append("1");
            }
            i += 1;
            assert(text@ =~= bits_to_text(self@.take(i as int)));
        }
        assert(self@.take(i as int) =~= self@);
        text
    }

    fn from_string(s: &str) -> (bits: BitVec) {
        let mut bits: Vec<Bit> = Vec::new();
        for c in it: s.chars()
            invariant
                all_bit_chars(s@),
                it.seq() == s@,
                bits@ == text_to_bits(s@.take(it.index() as int)),
        {
            bits.push(Bit::from_char(c));
            assert(bits@ =~= text_to_bits(s@.take(it.index() + 1)));
        }
        assert(s@.take(s@.len() as int) =~= s@);
        bits
    }
}

/// Whether every element of `bits` is a bit.
pub fn is_bit_vec(bits: &BitVec) -> (ok: bool)
    ensures
        ok == all_bits(bits@),
{
    let mut i: usize = 0;
    while i < bits.len()
        invariant
            i <= bits.len(),
            forall|j: int| 0 <= j < i ==> is_bit(#[trigger] bits@[j]),
        decreases bits.len() - i,
    {
        if bits[i] > 1 {
            assert(!is_bit(bits@[i as int]));
            return false;
        }
        i += 1;
    }
    true
}

/// Whether every character of `text` is `'0'` or `'1'`.
pub fn is_bit_text(text: &str) -> (ok: bool)
    ensures
        ok == all_bit_chars(text@),
{
    for c in it: text.chars()
        invariant
            it.seq() == text@,
            forall|j: int| 0 <= j < it.index() ==> is_bit_char(#[trigger] text@[j]),
    {
        if c != '0' && c != '1' {
            assert(!is_bit_char(text@[it.index() as int]));
            return false;
        }
    }
    true
}

/// Writing bits out and reading the text back gives the bits again.
pub proof fn lemma_text_round_trip(bits: Seq<Bit>)
    requires
        all_bits(bits),
    ensures
        all_bit_chars(bits_to_text(bits)),
        text_to_bits(bits_to_text(bits)) == bits,
{
    assert(text_to_bits(bits_to_text(bits)) =~= bits);
}

/// Reading a text of bit characters and writing the bits out gives the text again.
pub proof fn lemma_bits_round_trip(text: Seq<char>)
    requires
        all_bit_chars(text),
    ensures
        all_bits(text_to_bits(text)),
        bits_to_text(text_to_bits(text)) == text,
{
    assert(bits_to_text(text_to_bits(text)) =~= text);
}

/// The length of the framed form of `n` data bits: one marker for every seven data
/// bits or part of seven, and one marker alone where there is no data.
pub open spec fn padded_len(n: nat) -> nat {
    if n == 0 {
        1
    } else {
        n + (n + 6) / 7
    }
}

/// The framed form of a bit sequence. Every eighth position, from the first on,
/// holds the marker 1; the data bits fill the positions between, in order. The last
/// group holds as many data bits as are left.
pub open spec fn pad_bits(bits: Seq<Bit>) -> Seq<Bit> {
    Seq::new(
        padded_len(bits.len()),
        |j: int|
            if j % 8 == 0 {
                1u8
            } else {
                bits[j - j / 8 - 1]
            },
    )
}

/// The number of data positions among the first `m` positions of a framed sequence.
pub open spec fn unpadded_len(m: nat) -> nat {
    (m - (m + 7) / 8) as nat
}

/// A framed sequence without its marker positions: what stands at the positions
/// that are no multiple of eight, in order.
pub open spec fn unpad_bits(padded: Seq<Bit>) -> Seq<Bit> {
    Seq::new(unpadded_len(padded.len()), |i: int| padded[i + i / 7 + 1])
}

/// Whether a sequence has the shape that padding gives: it is not empty, it holds
/// bits only, and a marker 1 stands at every eighth position.
pub open spec fn is_padded(padded: Seq<Bit>) -> bool {
    &&& padded.len() > 0
    &&& all_bits(padded)
    &&& forall|j: int| 0 <= j < padded.len() && j % 8 == 0 ==> #[trigger] padded[j] == 1
}

/// A bit sequence that can be framed.
pub trait UnPadded: View<V = Seq<Bit>> {
    /// The framed form of this sequence.
    fn pad(&self) -> (padded: PaddedBits)
        ensures
            padded@ == pad_bits(self@),
            all_bits(self@) ==> is_padded(padded@),
    ;
}

impl UnPadded for UnPaddedBits {
    fn pad(&self) -> (padded: PaddedBits) {
        let mut padded: Vec<Bit> = Vec::new();
        padded.push(1);
        let mut i: usize = 0;
        assert(padded@ =~= pad_bits(self@.take(0)));
        while i < self.len()
            invariant
                i <= self.len(),
                padded@ == pad_bits(self@.take(i as int)),
            decreases self.len() - i,
        {
            if i > 0 && i % 7 == 0 {
                padded.push(1);
            }
            padded.push(self[i]);
            i += 1;
            assert(padded@ =~= pad_bits(self@.take(i as int)));
        }
        assert(self@.take(i as int) =~= self@);
        proof {
            if all_bits(self@) {
                lemma_pad_is_padded(self@);
            }
        }
        padded
    }
}

/// Framing a sequence and taking the frame off gives the sequence again, whatever
/// its length and whatever its elements.
pub proof fn lemma_unpad_pad(bits: Seq<Bit>)
    ensures
        unpad_bits(pad_bits(bits)) == bits,
{
    assert(unpad_bits(pad_bits(bits)) =~= bits);
}

/// The framed form of a sequence of bits has the shape of a framed sequence.
pub proof fn lemma_pad_is_padded(bits: Seq<Bit>)
    requires
        all_bits(bits),
    ensures
        is_padded(pad_bits(bits)),
{
}

/// The number that a bit sequence spells in binary, most significant bit first.
pub open spec fn bits_value(bits: Seq<Bit>) -> nat
    decreases bits.len(),
{
    if bits.len() == 0 {
        0
    } else {
        2 * bits_value(bits.drop_last()) + bits.last() as nat
    }
}

/// The byte that a bit sequence spells: its value, of which only the low eight
/// binary digits are kept where there are more.
pub open spec fn byte_of(bits: Seq<Bit>) -> u8 {
    (bits_value(bits) % 256) as u8
}

/// The binary digits of a number, most significant first and without leading
/// zeros; zero has no digits.
pub open spec fn byte_bits(n: nat) -> Seq<Bit>
    decreases n,
{
    if n == 0 {
        Seq::empty()
    } else {
        byte_bits(n / 2).push((n % 2) as u8)
    }
}

/// The bits of one byte.
pub trait ToByte: View<V = Seq<Bit>> + Sized {
    /// The byte that these bits spell, or the error where an element is no bit.
    fn to_byte(&self) -> (r: Result<u8, HuffmanError>)
        ensures
            all_bits(self@) ==> r == Ok::<u8, HuffmanError>(byte_of(self@)),
            !all_bits(self@) ==> r == Err::<u8, HuffmanError>(HuffmanError::ByteConversion),
    ;

    /// The binary digits of `byte`, without leading zeros.
    fn from_byte(byte: u8) -> (bits: Self)
        ensures
            bits@ == byte_bits(byte as nat),
    ;
}

impl ToByte for Byte {
    fn to_byte(&self) -> (r: Result<u8, HuffmanError>) {
        let mut byte: u8 = 0;
        let mut i: usize = 0;
        assert(self@.take(0) =~= Seq::<Bit>::empty());
        while i < self.len()
            invariant
                i <= self.len(),
                all_bits(self@.take(i as int)),
                byte == byte_of(self@.take(i as int)),
            decreases self.len() - i,
        {
            let bit = self[i];
            if bit != 0 && bit != 1 {
                return Err(HuffmanError::ByteConversion);
            }
            let ghost before = byte;
            byte = (byte << 1) | bit;
            i += 1;
            proof {
                let seen = self@.take(i as int);
                assert(seen.drop_last() =~= self@.take(i - 1));
                assert(seen.last() == bit);
                assert(byte == (2 * before + bit) % 256) by (bit_vector)
                    requires
                        byte == (before << 1) | bit,
                        bit == 0 || bit == 1,
                ;
                let v = bits_value(seen.drop_last()) as int;
                assert((2 * (v % 256) + bit) % 256 == (2 * v + bit) % 256) by {
                    vstd::arithmetic::div_mod::lemma_mul_mod_noop_right(2, v, 256);
                    vstd::arithmetic::div_mod::lemma_add_mod_noop(2 * (v % 256), bit as int, 256);
                    vstd::arithmetic::div_mod::lemma_add_mod_noop(2 * v, bit as int, 256);
                }
                assert forall|j: int| 0 <= j < seen.len() implies is_bit(#[trigger] seen[j]) by {
                    if j < i - 1 {
                        assert(seen[j] == self@.take(i - 1)[j]);
                    }
                }
            }
        }
        assert(self@.take(i as int) =~= self@);
        Ok(byte)
    }

    fn from_byte(byte: u8) -> (bits: Self) {
        let wide: u32 = byte as u32;
        let mut bits: Vec<Bit> = Vec::new();
        let mut i: u32 = 8;
        assert(wide >> 8 == 0) by (bit_vector)
            requires
                wide < 256,
        ;
        while i > 0
            invariant
                i <= 8,
                wide == byte,
                bits@ == byte_bits((wide >> i) as nat),
            decreases i,
        {
            let rest: u32 = wide >> (i - 1);
            assert(rest / 2 == wide >> i && rest & 1 == rest % 2) by (bit_vector)
                requires
                    rest == wide >> ((i - 1) as u32),
                    1 <= i <= 8,
            ;
            if rest != 0 {
                bits.push((rest & 1) as u8);
            }
            i -= 1;
        }
        assert(wide >> 0 == wide) by (bit_vector);
        bits
    }
}

/// The number of bytes that `m` bits are packed into: one for every eight bits or
/// part of eight, and one where there are no bits.
pub open spec fn packed_len(m: nat) -> nat {
    if m == 0 {
        1
    } else {
        (m + 7) / 8
    }
}

/// The `k`-th group of eight among `bits`; the last group holds what is left.
pub open spec fn chunk(bits: Seq<Bit>, k: int) -> Seq<Bit> {
    bits.subrange(
        8 * k,
        if 8 * k + 8 <= bits.len() {
            8 * k + 8
        } else {
            bits.len() as int
        },
    )
}

/// A bit sequence packed into bytes, eight bits to a byte, most significant first.
/// The last byte spells the bits that are left, however few.
pub open spec fn pack_bits(bits: Seq<Bit>) -> Seq<u8> {
    Seq::new(packed_len(bits.len()), |k: int| byte_of(chunk(bits, k)))
}

/// The bits that a byte sequence unpacks to: the binary digits of each byte in
/// turn, each without its leading zeros.
pub open spec fn unpack_bits(bytes: Seq<u8>) -> Seq<Bit>
    decreases bytes.len(),
{
    if bytes.len() == 0 {
        Seq::empty()
    } else {
        unpack_bits(bytes.drop_last()) + byte_bits(bytes.last() as nat)
    }
}

/// A framed bit sequence, which can be packed into bytes and unpacked from them.
pub trait Padded: View<V = Seq<Bit>> + Sized {
    /// This sequence without its markers.
    fn unpad(&self) -> (bits: UnPaddedBits)
        ensures
            bits@ == unpad_bits(self@),
    ;

    /// The bits that `data` unpacks to.
    fn from_vec_u8(data: &[u8]) -> (padded: Self)
        ensures
            padded@ == unpack_bits(data@),
    ;

    /// This sequence packed into bytes, or the error where an element is no bit.
    fn to_vec_u8(&self) -> (r: Result<Vec<u8>, HuffmanError>)
        ensures
            all_bits(self@) ==> r is Ok && r->Ok_0@ == pack_bits(self@),
            !all_bits(self@) ==> r is Err && r->Err_0 == HuffmanError::ByteConversion,
    ;
}

impl Padded for PaddedBits {
    fn unpad(&self) -> (bits: UnPaddedBits) {
        let mut bits: Vec<Bit> = Vec::new();
        let mut i: usize = 0;
        assert(bits@ =~= unpad_bits(self@.take(0)));
        while i < self.len()
            invariant
                i <= self.len(),
                bits@ == unpad_bits(self@.take(i as int)),
            decreases self.len() - i,
        {
            if i % 8 != 0 {
                bits.push(self[i]);
            }
            i += 1;
            assert(bits@ =~= unpad_bits(self@.take(i as int)));
        }
        assert(self@.take(i as int) =~= self@);
        bits
    }

    fn from_vec_u8(data: &[u8]) -> (padded: Self) {
        let mut padded: Vec<Bit> = Vec::new();
        let mut i: usize = 0;
        assert(data@.take(0) =~= Seq::<u8>::empty());
        while i < data.len()
            invariant
                i <= data.len(),
                padded@ == unpack_bits(data@.take(i as int)),
            decreases data.len() - i,
        {
            let mut digits = Byte::from_byte(data[i]);
            padded.append(&mut digits);
            i += 1;
            assert(data@.take(i as int).drop_last() =~= data@.take(i - 1));
        }
        assert(data@.take(i as int) =~= data@);
        padded
    }

    fn to_vec_u8(&self) -> (r: Result<Vec<u8>, HuffmanError>) {
        let mut group: Vec<Bit> = Vec::new();
        let mut bytes: Vec<u8> = Vec::new();
        let mut i: usize = 0;
        while i < self.len()
            invariant
                i <= self.len(),
                bytes.len() == (if i == 0 {
                    0
                } else {
                    (i - 1) / 8
                }),
                group@ == self@.subrange(8 * bytes.len(), i as int),
                all_bits(self@.take(8 * bytes.len())),
                forall|k: int| 0 <= k < bytes.len() ==> bytes[k] == byte_of(chunk(self@, k)),
            decreases self.len() - i,
        {
            if group.len() == 8 {
                let ghost k = bytes.len() as int;
                assert(group@ =~= chunk(self@, k));
                match group.to_byte() {
                    Ok(byte) => bytes.push(byte),
                    Err(e) => {
                        proof {
                            lemma_part_not_all_bits(self@, 8 * k, i as int);
                        }
                        return Err(e);
                    },
                }
                group.clear();
                proof {
                    lemma_all_bits_extend(self@, 8 * k, i as int);
                }
            }
            group.push(self[i]);
            i += 1;
            assert(group@ =~= self@.subrange(8 * bytes.len(), i as int));
        }
        let ghost k = bytes.len() as int;
        assert(group@ =~= chunk(self@, k));
        match group.to_byte() {
            Ok(byte) => {
                bytes.push(byte);
                proof {
                    lemma_all_bits_extend(self@, 8 * k, i as int);
                    assert(self@.take(i as int) =~= self@);
                    assert(bytes@ =~= pack_bits(self@));
                }
                Ok(bytes)
            },
            Err(e) => {
                proof {
                    lemma_part_not_all_bits(self@, 8 * k, i as int);
                }
                Err(e)
            },
        }
    }
}

/// A sequence with an element that is no bit between two of its positions does not
/// hold bits only.
proof fn lemma_part_not_all_bits(bits: Seq<Bit>, from: int, to: int)
    requires
        0 <= from <= to <= bits.len(),
        !all_bits(bits.subrange(from, to)),
    ensures
        !all_bits(bits),
{
    let part = bits.subrange(from, to);
    let j = choose|j: int| 0 <= j < part.len() && !is_bit(#[trigger] part[j]);
    assert(!is_bit(bits[from + j]));
}

/// Bits up to a position, followed by bits up to a later one, are bits up to the
/// later one.
proof fn lemma_all_bits_extend(bits: Seq<Bit>, from: int, to: int)
    requires
        0 <= from <= to <= bits.len(),
        all_bits(bits.take(from)),
        all_bits(bits.subrange(from, to)),
    ensures
        all_bits(bits.take(to)),
{
    assert forall|j: int| 0 <= j < to implies is_bit(#[trigger] bits.take(to)[j]) by {
        if j < from {
            assert(bits.take(from)[j] == bits[j]);
        } else {
            assert(bits.subrange(from, to)[j - from] == bits[j]);
        }
    }
}

/// A sequence of at most eight bits spells a number below 256.
proof fn lemma_bits_value_bound(bits: Seq<Bit>)
    requires
        all_bits(bits),
    ensures
        bits_value(bits) < vstd::arithmetic::power2::pow2(bits.len()),
        bits.len() <= 8 ==> bits_value(bits) < 256,
    decreases bits.len(),
{
    vstd::arithmetic::power2::lemma2_to64();
    if bits.len() > 0 {
        let init = bits.drop_last();
        assert forall|j: int| 0 <= j < init.len() implies is_bit(#[trigger] init[j]) by {
            assert(init[j] == bits[j]);
        }
        lemma_bits_value_bound(init);
        vstd::arithmetic::power2::lemma_pow2_unfold(bits.len());
        assert(is_bit(bits[bits.len() - 1]));
    }
    if bits.len() <= 8 {
        if bits.len() < 8 {
            vstd::arithmetic::power2::lemma_pow2_strictly_increases(bits.len(), 8);
        }
    }
}

/// The binary digits of the number that a bit sequence spells are that sequence,
/// where it begins with a 1.
proof fn lemma_digits_of_value(bits: Seq<Bit>)
    requires
        all_bits(bits),
        bits.len() >= 1,
        bits[0] == 1,
    ensures
        byte_bits(bits_value(bits)) == bits,
        bits_value(bits) >= 1,
    decreases bits.len(),
{
    let init = bits.drop_last();
    let last = bits.last();
    assert(is_bit(bits[bits.len() - 1]));
    if bits.len() == 1 {
        assert(bits_value(init) == 0);
        assert(byte_bits(0) =~= Seq::<Bit>::empty());
        assert(byte_bits(1) == byte_bits(0).push(1u8));
        assert(byte_bits(1) =~= bits);
    } else {
        assert forall|j: int| 0 <= j < init.len() implies is_bit(#[trigger] init[j]) by {
            assert(init[j] == bits[j]);
        }
        assert(init[0] == bits[0]);
        lemma_digits_of_value(init);
        let v = bits_value(bits);
        assert(v == 2 * bits_value(init) + last);
        assert(v / 2 == bits_value(init));
        assert(v % 2 == last as nat);
        assert(byte_bits(v) == byte_bits(v / 2).push((v % 2) as u8));
        assert(init.push(last) =~= bits);
    }
}

/// Packing a framed sequence into bytes and unpacking the bytes gives the framed
/// sequence again: the marker at the head of each group keeps its leading zeros.
pub proof fn lemma_unpack_pack(padded: Seq<Bit>)
    requires
        is_padded(padded),
    ensures
        unpack_bits(pack_bits(padded)) == padded,
    decreases padded.len(),
{
    let bytes = pack_bits(padded);
    let last_k = bytes.len() - 1;
    let group = chunk(padded, last_k);
    assert forall|j: int| 0 <= j < group.len() implies is_bit(#[trigger] group[j]) by {
        assert(group[j] == padded[8 * last_k + j]);
    }
    assert(group[0] == padded[8 * last_k]);
    lemma_digits_of_value(group);
    lemma_bits_value_bound(group);
    assert(byte_bits(bytes.last() as nat) == group);
    if last_k == 0 {
        assert(bytes.drop_last() =~= Seq::<u8>::empty());
        assert(unpack_bits(bytes.drop_last()) =~= Seq::<Bit>::empty());
        assert(unpack_bits(bytes) =~= padded);
    } else {
        let head = padded.take(8 * last_k);
        assert forall|j: int| 0 <= j < head.len() implies is_bit(#[trigger] head[j]) by {
            assert(head[j] == padded[j]);
        }
        assert forall|j: int| 0 <= j < head.len() && j % 8 == 0 implies #[trigger] head[j]
            == 1 by {
            assert(head[j] == padded[j]);
        }
        assert forall|k: int| 0 <= k < last_k implies #[trigger] chunk(head, k) == chunk(
            padded,
            k,
        ) by {
            assert(chunk(head, k) =~= chunk(padded, k));
        }
        assert(bytes.drop_last() =~= pack_bits(head));
        lemma_unpack_pack(head);
        assert(head + group =~= padded);
    }
}

} // verus!
