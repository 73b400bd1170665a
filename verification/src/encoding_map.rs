use crate::data::{
    all_bit_chars, all_bits, bits_to_text, is_bit, is_bit_text, text_to_bits, Bit, BitVec,
    BitVector,
};
use crate::error::HuffmanError;
use crate::node::Node;
use std::collections::HashMap;
use vstd::prelude::*;

verus! {

/// The code table that a walk through a tree gives, when the walk has come to
/// `node` by the path `prefix`. A leaf gets the path that leads to it, 0 for a step
/// to the left and 1 for a step to the right. Where a byte value stands at several
/// leaves, the one furthest to the right counts.
pub open spec fn tree_codes(node: Node, prefix: Seq<Bit>) -> Map<u8, Seq<Bit>>
    decreases node,
{
    match node.value {
        Some(value) => map![value => prefix],
        None => child_codes(node.left, prefix.push(0)).union_prefer_right(
            child_codes(node.right, prefix.push(1)),
        ),
    }
}

/// The code table of a subtree that may be missing.
pub open spec fn child_codes(child: Option<Box<Node>>, prefix: Seq<Bit>) -> Map<u8, Seq<Bit>>
    decreases child,
{
    match child {
        Some(node) => tree_codes(*node, prefix),
        None => Map::empty(),
    }
}

/// The code table of a tree.
pub open spec fn code_table(tree: Node) -> Map<u8, Seq<Bit>> {
    tree_codes(tree, Seq::empty())
}

/// Whether no code of a table is the beginning of the code of another symbol.
pub open spec fn is_prefix_free(table: Map<u8, Seq<Bit>>) -> bool {
    forall|a: u8, b: u8|
        a != b && #[trigger] table.contains_key(a) && #[trigger] table.contains_key(b)
            ==> !table[a].is_prefix_of(table[b])
}

/// Whether every code of a table is made of bits.
pub open spec fn has_bit_codes(table: Map<u8, Seq<Bit>>) -> bool {
    forall|a: u8| #[trigger] table.contains_key(a) ==> all_bits(table[a])
}

/// The symbol that has the code `code`, if there is one.
pub open spec fn symbol_of(table: Map<u8, Seq<Bit>>, code: Seq<Bit>) -> Option<u8> {
    if exists|b: u8| table.contains_key(b) && table[b] == code {
        Some(choose|b: u8| table.contains_key(b) && table[b] == code)
    } else {
        None
    }
}

/// The code table that a table of texts spells.
pub open spec fn text_table(texts: Map<u8, String>) -> Map<u8, Seq<Bit>> {
    Map::new(|symbol: u8| texts.contains_key(symbol), |symbol: u8| text_to_bits(texts[symbol]@))
}

/// Whether every text of a table is made of the characters `'0'` and `'1'`.
pub open spec fn has_bit_texts(texts: Map<u8, String>) -> bool {
    forall|symbol: u8| #[trigger] texts.contains_key(symbol) ==> all_bit_chars(texts[symbol]@)
}

/// The code table that a map of bit vectors holds.
pub open spec fn stored_table(map: Map<u8, BitVec>) -> Map<u8, Seq<Bit>> {
    Map::new(|symbol: u8| map.contains_key(symbol), |symbol: u8| map[symbol]@)
}

/// In the code table of a tree every code begins with the path that led to the
/// tree, every code is made of bits where that path is, and no code is the
/// beginning of another.
pub proof fn lemma_tree_codes(node: Node, prefix: Seq<Bit>)
    ensures
        forall|a: u8| #[trigger]
            tree_codes(node, prefix).contains_key(a) ==> prefix.is_prefix_of(
                tree_codes(node, prefix)[a],
            ),
        all_bits(prefix) ==> has_bit_codes(tree_codes(node, prefix)),
        is_prefix_free(tree_codes(node, prefix)),
        node.value is None ==> forall|a: u8| #[trigger]
            tree_codes(node, prefix).contains_key(a) ==> tree_codes(node, prefix)[a].len()
                > prefix.len(),
        tree_codes(node, prefix).dom() == node.symbols(),
    decreases node,
{
    let table = tree_codes(node, prefix);
    match node.value {
        Some(value) => {
            assert(table.dom() =~= node.symbols());
        },
        None => {
            let left_path = prefix.push(0);
            let right_path = prefix.push(1);
            let l = child_codes(node.left, left_path);
            let r = child_codes(node.right, right_path);
            let at = prefix.len() as int;
            if all_bits(prefix) {
                assert forall|i: int| 0 <= i < left_path.len() implies is_bit(#[trigger] left_path[i]) by {
                    if i < prefix.len() {
                        assert(left_path[i] == prefix[i]);
                    }
                }
                assert forall|i: int| 0 <= i < right_path.len() implies is_bit(#[trigger] right_path[i]) by {
                    if i < prefix.len() {
                        assert(right_path[i] == prefix[i]);
                    }
                }
            }
            lemma_child_codes(node.left, left_path);
            lemma_child_codes(node.right, right_path);
            assert forall|a: u8| #[trigger] table.contains_key(a) implies prefix.is_prefix_of(
                table[a],
            ) && table[a].len() > prefix.len() && table[a][at] == (if r.contains_key(a) {
                1u8
            } else {
                0u8
            }) by {
                let (code, path) = if r.contains_key(a) {
                    (r[a], right_path)
                } else {
                    (l[a], left_path)
                };
                assert(path.is_prefix_of(code));
                assert(code.subrange(0, path.len() as int)[at] == path[at]);
                assert(prefix =~= code.subrange(0, at)) by {
                    assert forall|i: int| 0 <= i < at implies prefix[i] == code[i] by {
                        assert(code.subrange(0, path.len() as int)[i] == path[i]);
                    }
                }
            }
            assert forall|a: u8, b: u8|
                a != b && #[trigger] table.contains_key(a) && #[trigger] table.contains_key(
                    b,
                ) implies !table[a].is_prefix_of(table[b]) by {
                if table[a].is_prefix_of(table[b]) {
                    assert(table[b].subrange(0, table[a].len() as int)[at] == table[a][at]);
                    if r.contains_key(a) {
                        assert(r.contains_key(b));
                    } else {
                        assert(!r.contains_key(b));
                        assert(l.contains_key(a) && l.contains_key(b));
                    }
                }
            }
            assert(table.dom() =~= node.symbols());
        },
    }
}

/// What `lemma_tree_codes` states, of a subtree that may be missing.
pub proof fn lemma_child_codes(child: Option<Box<Node>>, prefix: Seq<Bit>)
    ensures
        forall|a: u8| #[trigger]
            child_codes(child, prefix).contains_key(a) ==> prefix.is_prefix_of(
                child_codes(child, prefix)[a],
            ),
        all_bits(prefix) ==> has_bit_codes(child_codes(child, prefix)),
        is_prefix_free(child_codes(child, prefix)),
        child_codes(child, prefix).dom() == Node::child_symbols(child),
    decreases child,
{
    match child {
        Some(node) => {
            lemma_tree_codes(*node, prefix);
        },
        None => {
            assert(child_codes(child, prefix).dom() =~= Node::child_symbols(child));
        },
    }
}

/// A table in which no code is the beginning of another gives no two symbols the
/// same code.
pub proof fn lemma_prefix_free_injective(table: Map<u8, Seq<Bit>>)
    requires
        is_prefix_free(table),
    ensures
        table.is_injective(),
{
    assert forall|a: u8, b: u8|
        a != b && table.dom().contains(a) && table.dom().contains(b) implies #[trigger] table[a]
        != #[trigger] table[b] by {
        assert(table.contains_key(a) && table.contains_key(b));
        if table[a] == table[b] {
            assert(table[a] =~= table[b].subrange(0, table[a].len() as int));
        }
    }
}

/// What a table of texts holds, each text as its characters.
pub open spec fn text_view(texts: Map<u8, String>) -> Map<u8, Seq<char>> {
    Map::new(|symbol: u8| texts.contains_key(symbol), |symbol: u8| texts[symbol]@)
}

/// A code table written out: each code as the text of its bits.
pub open spec fn written_table(table: Map<u8, Seq<Bit>>) -> Map<u8, Seq<char>> {
    Map::new(|symbol: u8| table.contains_key(symbol), |symbol: u8| bits_to_text(table[symbol]))
}

/// Whether `inverse` lists the entries of `table` written out, text first: each
/// entry once, in ascending order of the symbols.
pub open spec fn is_written_inverse_of(
    inverse: Seq<(String, u8)>,
    table: Map<u8, Seq<Bit>>,
) -> bool {
    &&& forall|i: int, j: int|
        0 <= i < j < inverse.len() ==> (#[trigger] inverse[i]).1 < (#[trigger] inverse[j]).1
    &&& forall|i: int|
        0 <= i < inverse.len() ==> table.contains_key((#[trigger] inverse[i]).1)
            && bits_to_text(table[inverse[i].1]) == inverse[i].0@
    &&& forall|symbol: u8| #[trigger]
        table.contains_key(symbol) ==> exists|i: int|
            0 <= i < inverse.len() && (#[trigger] inverse[i]).1 == symbol
}

/// The entries of `table` for the symbols below `bound`.
pub open spec fn table_below(table: Map<u8, Seq<Bit>>, bound: nat) -> Map<u8, Seq<Bit>> {
    Map::new(|symbol: u8| table.contains_key(symbol) && symbol < bound, |symbol: u8| table[symbol])
}

/// Whether `inverse` lists the entries of `table`, code first: each entry once, in
/// ascending order of the symbols.
pub open spec fn is_inverse_of(inverse: Seq<(BitVec, u8)>, table: Map<u8, Seq<Bit>>) -> bool {
    &&& forall|i: int, j: int|
        0 <= i < j < inverse.len() ==> (#[trigger] inverse[i]).1 < (#[trigger] inverse[j]).1
    &&& forall|i: int|
        0 <= i < inverse.len() ==> table.contains_key((#[trigger] inverse[i]).1)
            && table[inverse[i].1] == inverse[i].0@
    &&& forall|symbol: u8| #[trigger]
        table.contains_key(symbol) ==> exists|i: int|
            0 <= i < inverse.len() && (#[trigger] inverse[i]).1 == symbol
}

/// Whether every text of `texts` is made of the characters `'0'` and `'1'`.
pub fn is_bit_table(texts: &HashMap<u8, String>) -> (ok: bool)
    ensures
        ok == has_bit_texts(texts@),
{
    let mut next: usize = 0;
    while next < 256
        invariant
            next <= 256,
            forall|symbol: u8|
                symbol < next && #[trigger] texts@.contains_key(symbol) ==> all_bit_chars(
                    texts@[symbol]@,
                ),
        decreases 256 - next,
    {
        let symbol = next as u8;
        match texts.get(&symbol) {
            Some(text) => {
                if !is_bit_text(text.as_str()) {
                    assert(texts@.contains_key(symbol));
                    return false;
                }
            },
            None => {},
        }
        next += 1;
    }
    true
}

/// Whether two bit vectors hold the same sequence.
fn same_bits(a: &BitVec, b: &BitVec) -> (same: bool)
    ensures
        same == (a@ == b@),
{
    if a.len() != b.len() {
        return false;
    }
    let mut i: usize = 0;
    while i < a.len()
        invariant
            i <= a.len(),
            a.len() == b.len(),
            forall|j: int| 0 <= j < i ==> a[j] == b[j],
        decreases a.len() - i,
    {
        if a[i] != b[i] {
            return false;
        }
        i += 1;
    }
    assert(a@ =~= b@);
    true
}

/// The first place of `inverse` that holds `code`, if one does.
fn find_code(inverse: &Vec<(BitVec, u8)>, code: &BitVec) -> (found: Option<usize>)
    ensures
        match found {
            Some(at) => at < inverse.len() && inverse[at as int].0@ == code@,
            None => forall|i: int| 0 <= i < inverse.len() ==> (#[trigger] inverse[i]).0@ != code@,
        },
{
    let mut i: usize = 0;
    while i < inverse.len()
        invariant
            i <= inverse.len(),
            forall|j: int| 0 <= j < i ==> (#[trigger] inverse[j]).0@ != code@,
        decreases inverse.len() - i,
    {
        if same_bits(&inverse[i].0, code) {
            return Some(i);
        }
        i += 1;
    }
    None
}

/// The entries of `map`, code first, in ascending order of the symbols; or the
/// error where two symbols share a code.
fn invert(map: &HashMap<u8, BitVec>) -> (r: Result<Vec<(BitVec, u8)>, HuffmanError>)
    ensures
        stored_table(map@).is_injective() ==> r is Ok && is_inverse_of(
            r->Ok_0@,
            stored_table(map@),
        ),
        !stored_table(map@).is_injective() ==> r is Err && r->Err_0
            == HuffmanError::InvalidCodeTable,
{
    let ghost table = stored_table(map@);
    let mut inverse: Vec<(BitVec, u8)> = Vec::new();
    let mut next: usize = 0;
    while next < 256
        invariant
            next <= 256,
            table == stored_table(map@),
            table_below(table, next as nat).is_injective(),
            is_inverse_of(inverse@, table_below(table, next as nat)),
        decreases 256 - next,
    {
        let symbol = next as u8;
        let ghost seen = table_below(table, next as nat);
        let ghost before = inverse@;
        match map.get(&symbol) {
            Some(code) => {
                match find_code(&inverse, code) {
                    Some(at) => {
                        proof {
                            let other = inverse[at as int].1;
                            assert(seen.contains_key(other));
                            assert(table.dom().contains(other) && table.dom().contains(symbol));
                            assert(table[other] == table[symbol]);
                        }
                        return Err(HuffmanError::InvalidCodeTable);
                    },
                    None => {},
                }
                inverse.push((code.clone(), symbol));
                next += 1;
                proof {
                    let now = table_below(table, next as nat);
                    assert forall|x: u8, y: u8|
                        x != y && now.dom().contains(x) && now.dom().contains(
                            y,
                        ) implies #[trigger] now[x] != #[trigger] now[y] by {
                        if x != symbol && y != symbol {
                            assert(seen.dom().contains(x) && seen.dom().contains(y));
                            assert(seen[x] != seen[y]);
                        } else {
                            let z = if x == symbol {
                                y
                            } else {
                                x
                            };
                            assert(seen.contains_key(z));
                            let i = choose|i: int|
                                0 <= i < before.len() && (#[trigger] before[i]).1 == z;
                            assert(before[i].0@ == seen[z]);
                        }
                    }
                    assert forall|i: int, j: int| 0 <= i < j < inverse@.len() implies (
                    #[trigger] inverse@[i]).1 < (#[trigger] inverse@[j]).1 by {
                        if j < before.len() {
                            assert(before[i].1 < before[j].1);
                        } else {
                            assert(inverse@[i] == before[i]);
                            assert(seen.contains_key(before[i].1));
                        }
                    }
                    assert forall|i: int| 0 <= i < inverse@.len() implies now.contains_key(
                        (#[trigger] inverse@[i]).1,
                    ) && now[inverse@[i].1] == inverse@[i].0@ by {
                        if i < before.len() {
                            assert(inverse@[i] == before[i]);
                            assert(seen.contains_key(before[i].1));
                        }
                    }
                    assert forall|s: u8| #[trigger] now.contains_key(s) implies exists|i: int|
                        0 <= i < inverse@.len() && (#[trigger] inverse@[i]).1 == s by {
                        if s == symbol {
                            assert(inverse@[before.len() as int].1 == s);
                        } else {
                            assert(seen.contains_key(s));
                            let i = choose|i: int|
                                0 <= i < before.len() && (#[trigger] before[i]).1 == s;
                            assert(inverse@[i] == before[i]);
                        }
                    }
                }
            },
            None => {
                next += 1;
                assert(table_below(table, next as nat) =~= seen);
            },
        }
    }
    assert(table_below(table, 256) =~= table);
    Ok(inverse)
}

/// A code table: for each symbol its code, and for each code its symbol.
///
/// No two symbols share a code, and every code is made of bits.
#[derive(Debug, PartialEq)]
pub struct EncodingMap {
    map: HashMap<u8, BitVec>,
    inverse_map: Vec<(BitVec, u8)>,
}

impl View for EncodingMap {
    type V = Map<u8, Seq<Bit>>;

    closed spec fn view(&self) -> Map<u8, Seq<Bit>> {
        stored_table(self.map@)
    }
}

impl EncodingMap {
    #[verifier::type_invariant]
    spec fn well_formed(&self) -> bool {
        &&& has_bit_codes(self@)
        &&& self@.is_injective()
        &&& is_inverse_of(self.inverse_map@, self@)
    }

    /// The code table of a tree.
    pub fn new(huffman_tree: &Node) -> (r: Result<Self, HuffmanError>)
        ensures
            r is Ok,
            r->Ok_0@ == code_table(*huffman_tree),
            is_prefix_free(r->Ok_0@),
            has_bit_codes(r->Ok_0@),
    {
        let mut map: HashMap<u8, BitVec> = HashMap::new();
        let code: BitVec = Vec::new();
        Self::build_encoding_map(huffman_tree, &mut map, &code);
        proof {
            lemma_tree_codes(*huffman_tree, code@);
            lemma_prefix_free_injective(code_table(*huffman_tree));
            assert(stored_table(map@) =~= code_table(*huffman_tree));
        }
        match invert(&map) {
            Ok(inverse_map) => Ok(EncodingMap { map, inverse_map }),
            Err(e) => Err(e),
        }
    }

    /// The code table that a table of texts spells, or the error where two symbols
    /// share a code.
    pub fn from(map: HashMap<u8, String>) -> (r: Result<Self, HuffmanError>)
        requires
            has_bit_texts(map@),
        ensures
            text_table(map@).is_injective() ==> r is Ok && r->Ok_0@ == text_table(map@),
            !text_table(map@).is_injective() ==> r is Err && r->Err_0
                == HuffmanError::InvalidCodeTable,
            r is Ok ==> has_bit_codes(r->Ok_0@),
    {
        let mut codes: HashMap<u8, BitVec> = HashMap::new();
        let mut next: usize = 0;
        assert(stored_table(codes@) =~= table_below(text_table(map@), 0));
        while next < 256
            invariant
                next <= 256,
                has_bit_texts(map@),
                stored_table(codes@) == table_below(text_table(map@), next as nat),
            decreases 256 - next,
        {
            let symbol = next as u8;
            let ghost seen = stored_table(codes@);
            match map.get(&symbol) {
                Some(text) => {
                    let code = BitVec::from_string(text.as_str());
                    assert(code@ == text_table(map@)[symbol]);
                    codes.insert(symbol, code);
                    assert(stored_table(codes@) =~= seen.insert(symbol, code@));
                },
                None => {
                    assert(!text_table(map@).contains_key(symbol));
                },
            }
            next += 1;
            assert(stored_table(codes@) =~= table_below(text_table(map@), next as nat));
        }
        proof {
            assert(table_below(text_table(map@), 256) =~= text_table(map@));
            assert forall|symbol: u8| #[trigger]
                text_table(map@).contains_key(symbol) implies all_bits(
                text_table(map@)[symbol],
            ) by {
                crate::data::lemma_bits_round_trip(map@[symbol]@);
            }
        }
        match invert(&codes) {
            Ok(inverse_map) => Ok(EncodingMap { map: codes, inverse_map }),
            Err(e) => Err(e),
        }
    }

    /// The table written out, and its inverse: for each symbol the text of its
    /// code, and the pairs of text and symbol in ascending order of the symbols.
    pub fn extract(&self) -> (texts: (HashMap<u8, String>, Vec<(String, u8)>))
        ensures
            text_view(texts.0@) == written_table(self@),
            is_written_inverse_of(texts.1@, self@),
    {
        proof {
            use_type_invariant(self);
        }
        let mut forward: HashMap<u8, String> = HashMap::new();
        let mut inverse: Vec<(String, u8)> = Vec::new();
        let mut next: usize = 0;
        assert(text_view(forward@) =~= written_table(table_below(self@, 0)));
        while next < 256
            invariant
                next <= 256,
                has_bit_codes(self@),
                self@ == stored_table(self.map@),
                text_view(forward@) == written_table(table_below(self@, next as nat)),
                is_written_inverse_of(inverse@, table_below(self@, next as nat)),
            decreases 256 - next,
        {
            let symbol = next as u8;
            let ghost seen = table_below(self@, next as nat);
            let ghost before = inverse@;
            let ghost forward_before = forward@;
            match self.map.get(&symbol) {
                Some(code) => {
                    assert(self@.contains_key(symbol));
                    let text = code.to_string();
                    forward.insert(symbol, text.clone());
                    inverse.push((text, symbol));
                    next += 1;
                    proof {
                        let now = table_below(self@, next as nat);
                        assert(forward@ == forward_before.insert(symbol, text));
                        assert(text@ == bits_to_text(self@[symbol]));
                        assert(text_view(forward_before) == written_table(seen));
                        assert forall|s: u8| #[trigger]
                            text_view(forward@).contains_key(s) implies text_view(forward@)[s]
                            == written_table(now)[s] by {
                            if s != symbol {
                                assert(text_view(forward_before).contains_key(s));
                                assert(written_table(seen)[s] == bits_to_text(self@[s]));
                            }
                        }
                        assert(text_view(forward@).dom() =~= written_table(now).dom()) by {
                            assert forall|s: u8|
                                text_view(forward@).contains_key(s) == written_table(
                                    now,
                                ).contains_key(s) by {
                                if s != symbol {
                                    assert(text_view(forward_before).contains_key(s)
                                        == written_table(seen).contains_key(s));
                                }
                            }
                        }
                        assert(text_view(forward@) =~= written_table(now));
                        assert forall|i: int, j: int| 0 <= i < j < inverse@.len() implies (
                        #[trigger] inverse@[i]).1 < (#[trigger] inverse@[j]).1 by {
                            if j < before.len() {
                                assert(before[i].1 < before[j].1);
                            } else {
                                assert(inverse@[i] == before[i]);
                                assert(seen.contains_key(before[i].1));
                            }
                        }
                        assert forall|i: int| 0 <= i < inverse@.len() implies now.contains_key(
                            (#[trigger] inverse@[i]).1,
                        ) && bits_to_text(now[inverse@[i].1]) == inverse@[i].0@ by {
                            if i < before.len() {
                                assert(inverse@[i] == before[i]);
                                assert(seen.contains_key(before[i].1));
                            }
                        }
                        assert forall|s: u8| #[trigger] now.contains_key(s) implies exists|i: int|
                            0 <= i < inverse@.len() && (#[trigger] inverse@[i]).1 == s by {
                            if s == symbol {
                                assert(inverse@[before.len() as int].1 == s);
                            } else {
                                assert(seen.contains_key(s));
                                let i = choose|i: int|
                                    0 <= i < before.len() && (#[trigger] before[i]).1 == s;
                                assert(inverse@[i] == before[i]);
                            }
                        }
                    }
                },
                None => {
                    next += 1;
                    assert(table_below(self@, next as nat) =~= seen);
                },
            }
        }
        assert(table_below(self@, 256) =~= self@);
        (forward, inverse)
    }

    /// The length of a shortest code, or 0 where the table is empty.
    pub fn get_shortest_code(&self) -> (length: usize)
        ensures
            self@.is_empty() ==> length == 0,
            !self@.is_empty() ==> exists|symbol: u8|
                self@.contains_key(symbol) && (#[trigger] self@[symbol]).len() == length,
            forall|symbol: u8|
                self@.contains_key(symbol) ==> length <= (#[trigger] self@[symbol]).len(),
    {
        proof {
            use_type_invariant(self);
        }
        if self.inverse_map.len() == 0 {
            assert(self@.dom() =~= Set::<u8>::empty());
            return 0;
        }
        let mut length: usize = self.inverse_map[0].0.len();
        let mut i: usize = 1;
        while i < self.inverse_map.len()
            invariant
                1 <= i <= self.inverse_map.len(),
                exists|j: int| 0 <= j < i && (#[trigger] self.inverse_map[j]).0@.len() == length,
                forall|j: int| 0 <= j < i ==> length <= (#[trigger] self.inverse_map[j]).0@.len(),
            decreases self.inverse_map.len() - i,
        {
            if self.inverse_map[i].0.len() < length {
                length = self.inverse_map[i].0.len();
            }
            i += 1;
        }
        proof {
            let j = choose|j: int|
                0 <= j < i && (#[trigger] self.inverse_map[j]).0@.len() == length;
            let symbol = self.inverse_map[j].1;
            assert(self@.contains_key(symbol) && self@[symbol].len() == length);
            assert(self@.dom().contains(symbol));
            assert forall|symbol: u8| self@.contains_key(symbol) implies length <= (
            #[trigger] self@[symbol]).len() by {
                let k = choose|k: int|
                    0 <= k < self.inverse_map@.len() && (#[trigger] self.inverse_map@[k]).1
                        == symbol;
                assert(length <= self.inverse_map[k].0@.len());
            }
        }
        length
    }

    /// The length of a longest code, or 0 where the table is empty.
    pub fn get_longest_code(&self) -> (length: usize)
        ensures
            self@.is_empty() ==> length == 0,
            !self@.is_empty() ==> exists|symbol: u8|
                self@.contains_key(symbol) && (#[trigger] self@[symbol]).len() == length,
            forall|symbol: u8|
                self@.contains_key(symbol) ==> length >= (#[trigger] self@[symbol]).len(),
    {
        proof {
            use_type_invariant(self);
        }
        if self.inverse_map.len() == 0 {
            assert(self@.dom() =~= Set::<u8>::empty());
            return 0;
        }
        let mut length: usize = self.inverse_map[0].0.len();
        let mut i: usize = 1;
        while i < self.inverse_map.len()
            invariant
                1 <= i <= self.inverse_map.len(),
                exists|j: int| 0 <= j < i && (#[trigger] self.inverse_map[j]).0@.len() == length,
                forall|j: int| 0 <= j < i ==> length >= (#[trigger] self.inverse_map[j]).0@.len(),
            decreases self.inverse_map.len() - i,
        {
            if self.inverse_map[i].0.len() > length {
                length = self.inverse_map[i].0.len();
            }
            i += 1;
        }
        proof {
            let j = choose|j: int|
                0 <= j < i && (#[trigger] self.inverse_map[j]).0@.len() == length;
            let symbol = self.inverse_map[j].1;
            assert(self@.contains_key(symbol) && self@[symbol].len() == length);
            assert(self@.dom().contains(symbol));
            assert forall|symbol: u8| self@.contains_key(symbol) implies length >= (
            #[trigger] self@[symbol]).len() by {
                let k = choose|k: int|
                    0 <= k < self.inverse_map@.len() && (#[trigger] self.inverse_map@[k]).1
                        == symbol;
                assert(length >= self.inverse_map[k].0@.len());
            }
        }
        length
    }

    /// The code of a symbol, if it has one.
    pub fn get(&self, key: &u8) -> (code: Option<&BitVec>)
        ensures
            match code {
                Some(bits) => self@.contains_key(*key) && self@[*key] == bits@ && all_bits(bits@),
                None => !self@.contains_key(*key),
            },
    {
        proof {
            use_type_invariant(self);
        }
        self.map.get(key)
    }

    /// The symbol of a code, if one has it.
    pub fn get_inverse(&self, key: &BitVec) -> (symbol: Option<&u8>)
        ensures
            match symbol {
                Some(s) => symbol_of(self@, key@) == Some(*s),
                None => symbol_of(self@, key@) is None,
            },
    {
        proof {
            use_type_invariant(self);
        }
        match find_code(&self.inverse_map, key) {
            Some(at) => {
                proof {
                    let s = self.inverse_map[at as int].1;
                    assert(self@.contains_key(s) && self@[s] == key@);
                    let chosen = choose|b: u8| self@.contains_key(b) && self@[b] == key@;
                    assert(self@.dom().contains(chosen) && self@.dom().contains(s));
                }
                Some(&self.inverse_map[at].1)
            },
            None => {
                proof {
                    if exists|b: u8| self@.contains_key(b) && self@[b] == key@ {
                        let b = choose|b: u8| self@.contains_key(b) && self@[b] == key@;
                        let i = choose|i: int|
                            0 <= i < self.inverse_map@.len() && (#[trigger] self.inverse_map@[i]).1
                                == b;
                        assert(self.inverse_map[i].0@ == key@);
                    }
                }
                None
            },
        }
    }

    /// Walks through a tree and enters for each leaf the path that leads to it:
    /// `code`, then 0 for each step to the left and 1 for each step to the right.
    fn build_encoding_map(node: &Node, map: &mut HashMap<u8, BitVec>, code: &BitVec)
        ensures
            stored_table(final(map)@) == stored_table(old(map)@).union_prefer_right(
                tree_codes(*node, code@),
            ),
        decreases node,
    {
        match node.value {
            Some(value) => {
                map.insert(value, code.clone());
                assert(stored_table(map@) =~= stored_table(old(map)@).union_prefer_right(
                    tree_codes(*node, code@),
                ));
            },
            None => {
                let ghost start = stored_table(map@);
                match &node.left {
                    Some(left) => {
                        let mut path = code.clone();
                        path.push(0);
                        Self::build_encoding_map(left, map, &path);
                    },
                    None => {},
                }
                let ghost middle = stored_table(map@);
                assert(middle =~= start.union_prefer_right(
                    child_codes(node.left, code@.push(0)),
                ));
                match &node.right {
                    Some(right) => {
                        let mut path = code.clone();
                        path.push(1);
                        Self::build_encoding_map(right, map, &path);
                    },
                    None => {},
                }
                assert(stored_table(map@) =~= start.union_prefer_right(
                    tree_codes(*node, code@),
                ));
            },
        }
    }
}

} // verus!
