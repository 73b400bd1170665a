use crate::data::{
    all_bits, is_bit, pack_bits, pad_bits, unpack_bits, unpad_bits, Bit, BitVec, Padded,
    PaddedBits, UnPadded, UnPaddedBits,
};
use crate::encoding_map::{
    code_table, has_bit_codes, has_bit_texts, is_prefix_free, symbol_of, text_table, text_view,
    written_table, EncodingMap,
};
use crate::encoding_stats::EncodingStats;
use crate::error::HuffmanError;
use crate::frequency_map::frequencies;
use crate::huffman_tree::huffman_tree;
use std::collections::HashMap;
use vstd::prelude::*;

verus! {

/// The bits that a buffer is encoded to under a code table: the codes of its
/// bytes, one behind the other. A byte without a code adds nothing.
pub open spec fn encoded_bits(data: Seq<u8>, table: Map<u8, Seq<Bit>>) -> Seq<Bit>
    decreases data.len(),
{
    if data.len() == 0 {
        Seq::empty()
    } else {
        encoded_bits(data.drop_last(), table) + if table.contains_key(data.last()) {
            table[data.last()]
        } else {
            Seq::empty()
        }
    }
}

/// One step of decoding. The bit joins the candidate; where the candidate is then
/// the code of a symbol, that symbol is emitted and the candidate starts anew.
pub open spec fn decode_step(state: (Seq<u8>, Seq<Bit>), bit: Bit, table: Map<u8, Seq<Bit>>) -> (
    Seq<u8>,
    Seq<Bit>,
) {
    let candidate = state.1.push(bit);
    match symbol_of(table, candidate) {
        Some(symbol) => (state.0.push(symbol), Seq::empty()),
        None => (state.0, candidate),
    }
}

/// What decoding has emitted when it has read `bits`, and the candidate that it
/// then holds.
pub open spec fn decode_state(bits: Seq<Bit>, table: Map<u8, Seq<Bit>>) -> (Seq<u8>, Seq<Bit>)
    decreases bits.len(),
{
    if bits.len() == 0 {
        (Seq::empty(), Seq::empty())
    } else {
        decode_step(decode_state(bits.drop_last(), table), bits.last(), table)
    }
}

/// The bytes that `bits` decode to under a code table. A candidate that is left at
/// the end and is no code is dropped.
pub open spec fn decoded_bytes(bits: Seq<Bit>, table: Map<u8, Seq<Bit>>) -> Seq<u8> {
    decode_state(bits, table).0
}

/// The code table of a buffer: that of the code tree of its frequency table.
pub open spec fn data_code_table(data: Seq<u8>) -> Map<u8, Seq<Bit>> {
    code_table(huffman_tree(frequencies(data)))
}

/// The bytes that a buffer is encoded to: its bits under its code table, framed
/// and packed.
pub open spec fn packed_encoding(data: Seq<u8>) -> Seq<u8> {
    pack_bits(pad_bits(encoded_bits(data, data_code_table(data))))
}

/// An encoded buffer, with the code table that decodes it.
#[derive(Debug)]
pub struct HuffmanData {
    /// The encoded data.
    pub encoded_data: Vec<u8>,
    /// The code table: for each symbol the text of its code, `'0'` and `'1'`.
    pub encoding_map: HashMap<u8, String>,
    /// The sizes of the data and of its encoded form.
    pub stats: EncodingStats,
}

impl HuffmanData {
    /// Whether this is what `data` is encoded to.
    pub open spec fn is_encoding_of(&self, data: Seq<u8>) -> bool {
        &&& self.encoded_data@ == packed_encoding(data)
        &&& text_view(self.encoding_map@) == written_table(data_code_table(data))
        &&& self.stats == EncodingStats::of(data.len(), packed_encoding(data).len())
    }

    /// The bytes that this decodes to: its data unpacked, taken out of the frame
    /// and read under its code table.
    pub open spec fn decoded(&self) -> Seq<u8> {
        decoded_bytes(
            unpad_bits(unpack_bits(self.encoded_data@)),
            text_table(self.encoding_map@),
        )
    }

    /// Encodes `data`: counts its bytes, builds the code tree and the code table,
    /// writes the codes of the bytes one behind the other, frames the bits and packs
    /// them. Fails where `data` is empty.
    pub fn new(data: &[u8]) -> (r: Result<HuffmanData, HuffmanError>)
        ensures
            data@.len() == 0 ==> r is Err && r->Err_0 == HuffmanError::EmptyInput,
            data@.len() > 0 ==> r is Ok && r->Ok_0.is_encoding_of(data@) && has_bit_texts(
                r->Ok_0.encoding_map@,
            ),
    {
        let frequency_map = crate::frequency_map::build(data);
        proof {
            assert(data@.len() == data.len());
            crate::huffman_tree::lemma_frequencies_total(data@);
            if data@.len() == 0 {
                assert(frequency_map@.dom() =~= Set::<u8>::empty());
            } else {
                crate::frequency_map::lemma_frequencies_dom(data@, data@[0]);
                assert(frequency_map@.dom().contains(data@[0]));
            }
        }
        let huffman_tree = match crate::huffman_tree::build(&frequency_map) {
            Ok(tree) => tree,
            Err(e) => {
                return Err(e);
            },
        };
        let encoding_map = match EncodingMap::new(&huffman_tree) {
            Ok(table) => table,
            Err(e) => {
                return Err(e);
            },
        };
        let bits: UnPaddedBits = Self::huffman_encode(data, &encoding_map);
        let padded: PaddedBits = bits.pad();
        let encoded_data = match padded.to_vec_u8() {
            Ok(bytes) => bytes,
            Err(e) => {
                return Err(e);
            },
        };
        let stats = EncodingStats::new(data, encoded_data.as_slice());
        let texts = encoding_map.extract().0;
        proof {
            lemma_written_table_spells(texts@, encoding_map@);
        }
        Ok(HuffmanData { encoded_data, encoding_map: texts, stats })
    }

    /// Decodes: unpacks the data, takes the bits out of the frame and reads them
    /// under the code table. Fails where two symbols of the table share a code.
    ///
    /// Every text of the code table must be made of `'0'` and `'1'`.
    pub fn decode(&self) -> (r: Result<Vec<u8>, HuffmanError>)
        requires
            has_bit_texts(self.encoding_map@),
        ensures
            text_table(self.encoding_map@).is_injective() ==> r is Ok && r->Ok_0@
                == self.decoded(),
            !text_table(self.encoding_map@).is_injective() ==> r is Err && r->Err_0
                == HuffmanError::InvalidCodeTable,
    {
        let padded: PaddedBits = PaddedBits::from_vec_u8(self.encoded_data.as_slice());
        let bits: UnPaddedBits = padded.unpad();
        let encoding_map = match EncodingMap::from(self.encoding_map.clone()) {
            Ok(table) => table,
            Err(e) => {
                return Err(e);
            },
        };
        Ok(Self::huffman_decode(&bits, &encoding_map))
    }

    /// The bits of `data` under a code table.
    pub fn huffman_encode(data: &[u8], encoding_map: &EncodingMap) -> (bits: UnPaddedBits)
        ensures
            bits@ == encoded_bits(data@, encoding_map@),
            all_bits(bits@),
    {
        let mut bits: Vec<Bit> = Vec::new();
        let mut i: usize = 0;
        assert(data@.take(0) =~= Seq::<u8>::empty());
        while i < data.len()
            invariant
                i <= data.len(),
                bits@ == encoded_bits(data@.take(i as int), encoding_map@),
                all_bits(bits@),
            decreases data.len() - i,
        {
            let ghost before = bits@;
            match encoding_map.get(&data[i]) {
                Some(code) => {
                    let mut j: usize = 0;
                    while j < code.len()
                        invariant
                            j <= code.len(),
                            all_bits(code@),
                            all_bits(bits@),
                            bits@ == before + code@.take(j as int),
                        decreases code.len() - j,
                    {
                        bits.push(code[j]);
                        j += 1;
                        assert(bits@ =~= before + code@.take(j as int));
                        assert forall|k: int| 0 <= k < bits@.len() implies is_bit(
                            #[trigger] bits@[k],
                        ) by {
                            if k < before.len() {
                                assert(bits@[k] == before[k]);
                            } else {
                                assert(bits@[k] == code@[k - before.len()]);
                            }
                        }
                    }
                    assert(code@.take(j as int) =~= code@);
                },
                None => {
                    assert(bits@ =~= before + Seq::<Bit>::empty());
                },
            }
            i += 1;
            assert(data@.take(i as int).drop_last() =~= data@.take(i - 1));
        }
        assert(data@.take(i as int) =~= data@);
        bits
    }

    /// The bytes that `encoded_data` decodes to under a code table.
    pub fn huffman_decode(encoded_data: &UnPaddedBits, encoding_map: &EncodingMap) -> (data: Vec<
        u8,
    >)
        ensures
            data@ == decoded_bytes(encoded_data@, encoding_map@),
    {
        let mut data: Vec<u8> = Vec::new();
        let mut candidate: BitVec = Vec::new();
        let mut i: usize = 0;
        assert(encoded_data@.take(0) =~= Seq::<Bit>::empty());
        while i < encoded_data.len()
            invariant
                i <= encoded_data.len(),
                (data@, candidate@) == decode_state(encoded_data@.take(i as int), encoding_map@),
            decreases encoded_data.len() - i,
        {
            candidate.push(encoded_data[i]);
            match encoding_map.get_inverse(&candidate) {
                Some(symbol) => {
                    data.push(*symbol);
                    candidate = Vec::new();
                },
                None => {},
            }
            i += 1;
            assert(encoded_data@.take(i as int).drop_last() =~= encoded_data@.take(i - 1));
        }
        assert(encoded_data@.take(i as int) =~= encoded_data@);
        data
    }
}

/// Codes made of bits, one behind the other, are made of bits.
pub proof fn lemma_encoded_all_bits(data: Seq<u8>, table: Map<u8, Seq<Bit>>)
    requires
        has_bit_codes(table),
    ensures
        all_bits(encoded_bits(data, table)),
    decreases data.len(),
{
    if data.len() > 0 {
        let head = encoded_bits(data.drop_last(), table);
        lemma_encoded_all_bits(data.drop_last(), table);
        let bits = encoded_bits(data, table);
        assert forall|i: int| 0 <= i < bits.len() implies is_bit(#[trigger] bits[i]) by {
            if i < head.len() {
                assert(bits[i] == head[i]);
            } else {
                assert(table.contains_key(data.last()));
                assert(bits[i] == table[data.last()][i - head.len()]);
            }
        }
    }
}

/// A table of texts that writes out a code table of bits spells that code table.
pub proof fn lemma_written_table_spells(texts: Map<u8, String>, table: Map<u8, Seq<Bit>>)
    requires
        has_bit_codes(table),
        text_view(texts) == written_table(table),
    ensures
        has_bit_texts(texts),
        text_table(texts) == table,
{
    assert forall|symbol: u8| texts.contains_key(symbol) == table.contains_key(symbol) by {
        assert(text_view(texts).dom().contains(symbol) == texts.dom().contains(symbol));
        assert(written_table(table).dom().contains(symbol) == table.dom().contains(symbol));
    }
    assert forall|symbol: u8| #[trigger] texts.contains_key(symbol) implies crate::data::all_bit_chars(
        texts[symbol]@,
    ) && crate::data::text_to_bits(texts[symbol]@) == table[symbol] by {
        assert(table.contains_key(symbol));
        assert(text_view(texts)[symbol] == written_table(table)[symbol]);
        crate::data::lemma_text_round_trip(table[symbol]);
    }
    assert(text_table(texts) =~= table);
}

/// Decoding that holds no candidate and then reads the first `j` bits of the code
/// of `symbol` holds those bits as its candidate, until it has read the whole code
/// and emits `symbol`.
proof fn lemma_decode_code(
    bits: Seq<Bit>,
    out: Seq<u8>,
    symbol: u8,
    table: Map<u8, Seq<Bit>>,
    j: int,
)
    requires
        is_prefix_free(table),
        table.contains_key(symbol),
        0 <= j <= table[symbol].len(),
        decode_state(bits, table) == (out, Seq::<Bit>::empty()),
    ensures
        decode_state(bits + table[symbol].take(j), table) == if 0 < j == table[symbol].len() {
            (out.push(symbol), Seq::<Bit>::empty())
        } else {
            (out, table[symbol].take(j))
        },
    decreases j,
{
    let code = table[symbol];
    if j == 0 {
        assert(bits + code.take(0) =~= bits);
        assert(code.take(0) =~= Seq::<Bit>::empty());
    } else {
        lemma_decode_code(bits, out, symbol, table, j - 1);
        let before = bits + code.take(j - 1);
        let now = bits + code.take(j);
        assert(now.drop_last() =~= before);
        assert(now.last() == code[j - 1]);
        let candidate = code.take(j - 1).push(code[j - 1]);
        assert(candidate =~= code.take(j));
        assert(decode_state(now, table) == decode_step(
            decode_state(before, table),
            code[j - 1],
            table,
        ));
        if j == code.len() {
            assert(code.take(j) =~= code);
            let chosen = choose|b: u8| table.contains_key(b) && table[b] == candidate;
            if chosen != symbol {
                assert(table[chosen] =~= table[symbol].subrange(0, table[chosen].len() as int));
                assert(table[chosen].is_prefix_of(table[symbol]));
            }
        } else {
            if exists|b: u8| table.contains_key(b) && table[b] == candidate {
                let b = choose|b: u8| table.contains_key(b) && table[b] == candidate;
                assert(b != symbol);
                assert(table[b] =~= table[symbol].subrange(0, table[b].len() as int));
                assert(table[b].is_prefix_of(table[symbol]));
            }
        }
    }
}

/// Under a code table in which no code is the beginning of another and none is
/// empty, the codes of a buffer, one behind the other, decode to the buffer.
pub proof fn lemma_decode_encoded(data: Seq<u8>, table: Map<u8, Seq<Bit>>)
    requires
        is_prefix_free(table),
        forall|i: int| 0 <= i < data.len() ==> table.contains_key(#[trigger] data[i]),
        forall|symbol: u8| #[trigger] table.contains_key(symbol) ==> table[symbol].len() > 0,
    ensures
        decode_state(encoded_bits(data, table), table) == (data, Seq::<Bit>::empty()),
    decreases data.len(),
{
    if data.len() == 0 {
        assert(data =~= Seq::<u8>::empty());
    } else {
        let init = data.drop_last();
        let last = data.last();
        assert forall|i: int| 0 <= i < init.len() implies table.contains_key(
            #[trigger] init[i],
        ) by {
            assert(init[i] == data[i]);
        }
        lemma_decode_encoded(init, table);
        assert(table.contains_key(data[data.len() - 1]));
        let code = table[last];
        lemma_decode_code(encoded_bits(init, table), init, last, table, code.len() as int);
        assert(code.take(code.len() as int) =~= code);
        assert(init.push(last) =~= data);
    }
}

/// Whether a buffer holds at least two different byte values.
pub open spec fn has_two_symbols(data: Seq<u8>) -> bool {
    exists|i: int, j: int| 0 <= i < data.len() && 0 <= j < data.len() && data[i] != data[j]
}

/// What the code table of a buffer with two different byte values is like: no
/// code is the beginning of another, every code is made of bits and none is empty,
/// and every byte of the buffer has a code.
proof fn lemma_data_code_table(data: Seq<u8>)
    requires
        has_two_symbols(data),
    ensures
        is_prefix_free(data_code_table(data)),
        has_bit_codes(data_code_table(data)),
        forall|i: int| 0 <= i < data.len() ==> data_code_table(data).contains_key(
            #[trigger] data[i],
        ),
        forall|symbol: u8| #[trigger]
            data_code_table(data).contains_key(symbol) ==> data_code_table(data)[symbol].len()
                > 0,
{
    let counts = frequencies(data);
    let tree = huffman_tree(counts);
    let (i, j) = choose|i: int, j: int|
        0 <= i < data.len() && 0 <= j < data.len() && data[i] != data[j];
    crate::frequency_map::lemma_frequencies_dom(data, data[i]);
    crate::frequency_map::lemma_frequencies_dom(data, data[j]);
    assert(counts.dom().contains(data[i]));
    crate::huffman_tree::lemma_huffman_tree_symbols(counts);
    assert(counts.contains_key(data[i]) && counts.contains_key(data[j]));
    assert(tree.value is None);
    crate::encoding_map::lemma_tree_codes(tree, Seq::empty());
    assert forall|k: int| 0 <= k < data.len() implies data_code_table(data).contains_key(
        #[trigger] data[k],
    ) by {
        crate::frequency_map::lemma_frequencies_dom(data, data[k]);
        assert(counts.dom().contains(data[k]));
    }
}

/// Encoding a buffer that holds at least two different byte values and decoding
/// the result gives the buffer again.
pub proof fn lemma_round_trip(data: Seq<u8>)
    requires
        has_two_symbols(data),
    ensures
        decoded_bytes(
            unpad_bits(unpack_bits(packed_encoding(data))),
            data_code_table(data),
        ) == data,
{
    let table = data_code_table(data);
    let bits = encoded_bits(data, table);
    lemma_data_code_table(data);
    lemma_encoded_all_bits(data, table);
    crate::data::lemma_pad_is_padded(bits);
    crate::data::lemma_unpack_pack(pad_bits(bits));
    crate::data::lemma_unpad_pad(bits);
    lemma_decode_encoded(data, table);
}

/// What a buffer with at least two different byte values is encoded to can be
/// decoded, and decodes to the buffer.
pub proof fn lemma_decode_inverts_encode(encoded: HuffmanData, data: Seq<u8>)
    requires
        has_two_symbols(data),
        encoded.is_encoding_of(data),
    ensures
        has_bit_texts(encoded.encoding_map@),
        text_table(encoded.encoding_map@).is_injective(),
        encoded.decoded() == data,
{
    lemma_data_code_table(data);
    lemma_written_table_spells(encoded.encoding_map@, data_code_table(data));
    crate::encoding_map::lemma_prefix_free_injective(data_code_table(data));
    lemma_round_trip(data);
}

/// A buffer has one encoding: two results of encoding it hold the same bytes, the
/// same code table and the same sizes.
pub proof fn lemma_encoding_is_unique(data: Seq<u8>, first: HuffmanData, second: HuffmanData)
    requires
        first.is_encoding_of(data),
        second.is_encoding_of(data),
    ensures
        first.encoded_data@ == second.encoded_data@,
        text_view(first.encoding_map@) == text_view(second.encoding_map@),
        first.stats == second.stats,
{
}

/// In the code table of a buffer no code is the beginning of the code of another
/// symbol.
pub proof fn lemma_code_table_prefix_free(data: Seq<u8>)
    ensures
        is_prefix_free(data_code_table(data)),
{
    crate::encoding_map::lemma_tree_codes(huffman_tree(frequencies(data)), Seq::empty());
}

/// Under a table whose codes are all empty a buffer is encoded to no bits.
proof fn lemma_encoded_nothing(data: Seq<u8>, table: Map<u8, Seq<Bit>>)
    requires
        forall|symbol: u8| #[trigger] table.contains_key(symbol) ==> table[symbol].len() == 0,
    ensures
        encoded_bits(data, table) == Seq::<Bit>::empty(),
    decreases data.len(),
{
    if data.len() > 0 {
        lemma_encoded_nothing(data.drop_last(), table);
        assert(encoded_bits(data, table) =~= Seq::<Bit>::empty());
    }
}

/// A buffer of one repeated byte value has a code table with one entry, the empty
/// code for that value. It is encoded to the single byte 1, the marker alone, which
/// holds nothing of the length of the buffer: it decodes to no bytes.
pub proof fn lemma_single_symbol(data: Seq<u8>)
    requires
        data.len() > 0,
        forall|i: int| 0 <= i < data.len() ==> #[trigger] data[i] == data[0],
    ensures
        data_code_table(data) == map![data[0] => Seq::<Bit>::empty()],
        packed_encoding(data) == seq![1u8],
        decoded_bytes(
            unpad_bits(unpack_bits(packed_encoding(data))),
            data_code_table(data),
        ) == Seq::<u8>::empty(),
{
    let symbol = data[0];
    let counts = frequencies(data);
    assert forall|b: u8| counts.contains_key(b) <==> b == symbol by {
        crate::frequency_map::lemma_frequencies_dom(data, b);
        if b == symbol {
            assert(data.contains(symbol));
        }
    }
    crate::huffman_tree::lemma_single_symbol_tree(counts, symbol);
    let table = data_code_table(data);
    assert(table =~= map![symbol => Seq::<Bit>::empty()]);
    lemma_encoded_nothing(data, table);
    let padded = pad_bits(Seq::<Bit>::empty());
    assert(padded =~= seq![1u8]);
    let group = crate::data::chunk(padded, 0);
    assert(group =~= seq![1u8]);
    assert(group.drop_last() =~= Seq::<Bit>::empty());
    assert(crate::data::bits_value(group.drop_last()) == 0);
    assert(crate::data::bits_value(group) == 1);
    assert(pack_bits(padded) =~= seq![1u8]);
    let bytes = seq![1u8];
    assert(bytes.drop_last() =~= Seq::<u8>::empty());
    assert(unpack_bits(bytes.drop_last()) =~= Seq::<Bit>::empty());
    assert(crate::data::byte_bits(0) =~= Seq::<Bit>::empty());
    assert(crate::data::byte_bits(1) == crate::data::byte_bits(0).push(1u8));
    assert(unpack_bits(bytes) =~= seq![1u8]);
    assert(unpad_bits(seq![1u8]) =~= Seq::<Bit>::empty());
}

} // verus!
