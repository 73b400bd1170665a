use crate::error::HuffmanError;
use crate::frequency_map::{frequencies, lemma_occurrences_bound, occurrences};
use crate::node::Node;
use std::collections::HashMap;
use vstd::prelude::*;

verus! {

/// The sum of the frequencies that a table gives to the byte values from `from` up.
pub open spec fn total_from(table: Map<u8, u64>, from: nat) -> nat
    decreases 256 - from,
{
    if from >= 256 {
        0
    } else {
        total_from(table, from + 1) + if table.contains_key(from as u8) {
            table[from as u8] as nat
        } else {
            0nat
        }
    }
}

/// The sum of all frequencies of a table.
pub open spec fn total(table: Map<u8, u64>) -> nat {
    total_from(table, 0)
}

/// The place at which a tree of frequency `freq` joins a worklist: directly behind
/// the last tree whose frequency is at least `freq`, or in front where there is
/// none.
pub open spec fn insert_position(list: Seq<Node>, freq: u64) -> nat
    decreases list.len(),
{
    if list.len() == 0 || list.last().freq >= freq {
        list.len()
    } else {
        insert_position(list.drop_last(), freq)
    }
}

/// A worklist after `node` has joined it at its place.
pub open spec fn insert_by_freq(list: Seq<Node>, node: Node) -> Seq<Node> {
    list.insert(insert_position(list, node.freq) as int, node)
}

/// The worklist of the leaves for the byte values from `from` up. The leaves join
/// in descending order of their byte value, so the list is ordered by descending
/// frequency, and leaves of one frequency by descending byte value.
pub open spec fn leaves_from(table: Map<u8, u64>, from: nat) -> Seq<Node>
    decreases 256 - from,
{
    if from >= 256 {
        Seq::empty()
    } else if table.contains_key(from as u8) {
        insert_by_freq(leaves_from(table, from + 1), Node::leaf(table[from as u8], from as u8))
    } else {
        leaves_from(table, from + 1)
    }
}

/// The worklist after one step of merging: the two last trees are taken off and
/// joined under a branch, the last as its left child, and the branch joins the
/// rest at its place.
pub open spec fn merge_step(list: Seq<Node>) -> Seq<Node>
    recommends
        list.len() >= 2,
{
    let n = list.len() as int;
    insert_by_freq(list.take(n - 2), Node::branch(list[n - 1], list[n - 2]))
}

/// The tree that is left when a worklist is merged step by step until one tree
/// remains.
pub open spec fn merged(list: Seq<Node>) -> Node
    recommends
        list.len() > 0,
    decreases list.len(),
{
    if list.len() <= 1 {
        list[0]
    } else {
        proof {
            let n = list.len() as int;
            lemma_insert_position_bound(
                list.take(n - 2),
                Node::branch(list[n - 1], list[n - 2]).freq,
            );
        }
        merged(merge_step(list))
    }
}

/// The code tree of a frequency table.
pub open spec fn huffman_tree(table: Map<u8, u64>) -> Node
    recommends
        !table.is_empty(),
{
    merged(leaves_from(table, 0))
}

/// The place at which a tree joins a worklist lies within the list or at its end.
pub proof fn lemma_insert_position_bound(list: Seq<Node>, freq: u64)
    ensures
        insert_position(list, freq) <= list.len(),
    decreases list.len(),
{
    if !(list.len() == 0 || list.last().freq >= freq) {
        lemma_insert_position_bound(list.drop_last(), freq);
    }
}

/// The sum of the frequencies at the roots of a worklist.
pub open spec fn forest_total(list: Seq<Node>) -> nat
    decreases list.len(),
{
    if list.len() == 0 {
        0
    } else {
        forest_total(list.drop_last()) + list.last().freq as nat
    }
}

/// A tree that joins a list at any place adds its frequency to the sum.
proof fn lemma_forest_total_insert(list: Seq<Node>, at: int, node: Node)
    requires
        0 <= at <= list.len(),
    ensures
        forest_total(list.insert(at, node)) == forest_total(list) + node.freq,
    decreases list.len() - at,
{
    let joined = list.insert(at, node);
    if at == list.len() {
        assert(joined.drop_last() =~= list);
    } else {
        assert(joined.drop_last() =~= list.drop_last().insert(at, node));
        lemma_forest_total_insert(list.drop_last(), at, node);
    }
}

/// Puts `node` into the worklist at its place.
fn insert_node(list: &mut Vec<Node>, node: Node)
    ensures
        final(list)@ == insert_by_freq(old(list)@, node),
        final(list).len() == old(list).len() + 1,
        forest_total(final(list)@) == forest_total(old(list)@) + node.freq,
{
    let mut at: usize = list.len();
    assert(list@.take(at as int) =~= list@);
    while at > 0 && list[at - 1].freq < node.freq
        invariant
            at <= list.len(),
            insert_position(list@, node.freq) == insert_position(
                list@.take(at as int),
                node.freq,
            ),
        decreases at,
    {
        assert(list@.take(at as int).drop_last() =~= list@.take(at - 1));
        at -= 1;
    }
    proof {
        lemma_forest_total_insert(list@, at as int, node);
    }
    list.insert(at, node);
}

/// The sum over the worklist of the leaves is the sum over the table.
proof fn lemma_leaves_total(table: Map<u8, u64>, from: nat)
    ensures
        forest_total(leaves_from(table, from)) == total_from(table, from),
        leaves_from(table, from).len() <= 256 - from || from >= 256,
        leaves_from(table, from).len() == 0 <==> forall|b: u8| b >= from ==> !table.contains_key(b),
    decreases 256 - from,
{
    if from < 256 {
        lemma_leaves_total(table, from + 1);
        let rest = leaves_from(table, from + 1);
        if table.contains_key(from as u8) {
            let leaf = Node::leaf(table[from as u8], from as u8);
            lemma_insert_position_bound(rest, leaf.freq);
            lemma_forest_total_insert(rest, insert_position(rest, leaf.freq) as int, leaf);
        } else {
            assert forall|b: u8| b >= from && table.contains_key(b) implies b >= from + 1 by {}
        }
    }
}

/// Builds the code tree of a frequency table, or fails where the table is empty.
///
/// The frequencies must add up to a number that a `u64` holds.
pub fn build(frequency_map: &HashMap<u8, u64>) -> (r: Result<Node, HuffmanError>)
    requires
        total(frequency_map@) <= u64::MAX,
    ensures
        frequency_map@.is_empty() ==> r is Err && r->Err_0 == HuffmanError::EmptyInput,
        !frequency_map@.is_empty() ==> r is Ok && r->Ok_0 == huffman_tree(frequency_map@),
        r is Ok ==> r->Ok_0.is_proper() && r->Ok_0.agrees_with(frequency_map@)
            && r->Ok_0.symbols() == frequency_map@.dom() && r->Ok_0.freq == total(
            frequency_map@,
        ),
{
    let mut list: Vec<Node> = Vec::new();
    let mut from: usize = 256;
    while from > 0
        invariant
            from <= 256,
            list@ == leaves_from(frequency_map@, from as nat),
        decreases from,
    {
        from -= 1;
        let byte = from as u8;
        match frequency_map.get(&byte) {
            Some(freq) => {
                insert_node(&mut list, Node::new_leaf(*freq, Some(byte)));
            },
            None => {},
        }
    }
    proof {
        lemma_leaves_total(frequency_map@, 0);
    }
    if list.len() == 0 {
        return Err(HuffmanError::EmptyInput);
    }
    assert(!frequency_map@.is_empty()) by {
        let b = choose|b: u8| frequency_map@.contains_key(b);
        assert(frequency_map@.dom().contains(b));
    }
    proof {
        lemma_huffman_tree_proper(frequency_map@);
    }
    while list.len() > 1
        invariant
            list.len() >= 1,
            !frequency_map@.is_empty(),
            merged(list@) == huffman_tree(frequency_map@),
            forest_total(list@) <= u64::MAX,
        decreases list.len(),
    {
        let ghost before = list@;
        let left = list.pop().unwrap();
        let right = list.pop().unwrap();
        proof {
            let n = before.len() as int;
            assert(list@ =~= before.take(n - 2));
            let shorter = before.drop_last();
            assert(shorter.drop_last() =~= list@);
            assert(forest_total(shorter) == forest_total(list@) + right.freq);
            assert(forest_total(before) == forest_total(shorter) + left.freq);
        }
        let node = Node::new_branch(left, right);
        insert_node(&mut list, node);
    }
    Ok(list.pop().unwrap())
}

/// The byte values at the leaves of the trees of a worklist.
pub open spec fn forest_symbols(list: Seq<Node>) -> Set<u8>
    decreases list.len(),
{
    if list.len() == 0 {
        Set::empty()
    } else {
        forest_symbols(list.drop_last()) + list.last().symbols()
    }
}

/// A tree that joins a list at any place adds its byte values to those of the list.
proof fn lemma_forest_symbols_insert(list: Seq<Node>, at: int, node: Node)
    requires
        0 <= at <= list.len(),
    ensures
        forest_symbols(list.insert(at, node)) == forest_symbols(list) + node.symbols(),
    decreases list.len() - at,
{
    let joined = list.insert(at, node);
    if at == list.len() {
        assert(joined.drop_last() =~= list);
    } else {
        assert(joined.drop_last() =~= list.drop_last().insert(at, node));
        assert(joined.last() == list.last());
        lemma_forest_symbols_insert(list.drop_last(), at, node);
        assert(forest_symbols(joined) =~= forest_symbols(list) + node.symbols());
    }
}

/// The tree that a worklist is merged to has the byte values of the list at its
/// leaves, and is a branch where the list held more than one tree.
pub proof fn lemma_merged_symbols(list: Seq<Node>)
    requires
        list.len() >= 1,
    ensures
        merged(list).symbols() == forest_symbols(list),
        list.len() >= 2 ==> merged(list).value is None,
    decreases list.len(),
{
    if list.len() == 1 {
        assert(list.drop_last() =~= Seq::<Node>::empty());
        assert(forest_symbols(list.drop_last()) =~= Set::<u8>::empty());
        assert(list.last() == list[0]);
        assert(forest_symbols(list) =~= list[0].symbols());
    } else {
        let n = list.len() as int;
        let rest = list.take(n - 2);
        let node = Node::branch(list[n - 1], list[n - 2]);
        let next = insert_by_freq(rest, node);
        lemma_insert_position_bound(rest, node.freq);
        lemma_forest_symbols_insert(rest, insert_position(rest, node.freq) as int, node);
        let shorter = list.drop_last();
        assert(shorter.drop_last() =~= rest);
        assert(shorter.last() == list[n - 2]);
        assert(Node::child_symbols(node.left) == list[n - 1].symbols());
        assert(Node::child_symbols(node.right) == list[n - 2].symbols());
        assert(node.symbols() =~= list[n - 1].symbols() + list[n - 2].symbols());
        assert(forest_symbols(shorter) == forest_symbols(rest) + list[n - 2].symbols());
        assert(forest_symbols(list) == forest_symbols(shorter) + list[n - 1].symbols());
        assert(forest_symbols(next) =~= forest_symbols(list));
        if next.len() == 1 {
            assert(rest =~= Seq::<Node>::empty());
            assert(next[0] == node);
        }
        lemma_merged_symbols(next);
    }
}

/// The worklist of the leaves holds the byte values of the table, and one tree
/// more for each of them.
pub proof fn lemma_leaves_symbols(table: Map<u8, u64>, from: nat)
    ensures
        forest_symbols(leaves_from(table, from)) == Set::new(
            |b: u8| b >= from && table.contains_key(b),
        ),
        forall|b: u8|
            b >= from && table.contains_key(b) ==> leaves_from(table, from).len() > (
            #[trigger] leaves_from(table, b as nat + 1)).len(),
        forall|to: nat|
            from <= to ==> leaves_from(table, from).len() >= (#[trigger] leaves_from(
                table,
                to,
            )).len(),
    decreases 256 - from,
{
    let here = leaves_from(table, from);
    let keys = Set::new(|b: u8| b >= from && table.contains_key(b));
    if from >= 256 {
        assert(forest_symbols(here) =~= keys);
        assert forall|to: nat| from <= to implies here.len() >= (#[trigger] leaves_from(
            table,
            to,
        )).len() by {}
    } else {
        lemma_leaves_symbols(table, from + 1);
        let rest = leaves_from(table, from + 1);
        if table.contains_key(from as u8) {
            let leaf = Node::leaf(table[from as u8], from as u8);
            lemma_insert_position_bound(rest, leaf.freq);
            lemma_forest_symbols_insert(rest, insert_position(rest, leaf.freq) as int, leaf);
            assert(leaf.symbols() =~= set![from as u8]);
            assert(forest_symbols(here) =~= keys);
            assert(here.len() == rest.len() + 1);
        } else {
            assert(forest_symbols(here) =~= keys);
        }
        assert forall|b: u8| b >= from && table.contains_key(b) implies here.len() > (
        #[trigger] leaves_from(table, b as nat + 1)).len() by {
            if b == from {
            } else {
                assert(b >= from + 1);
            }
        }
        assert forall|to: nat| from <= to implies here.len() >= (#[trigger] leaves_from(
            table,
            to,
        )).len() by {
            if to > from {
                assert(from + 1 <= to);
            }
        }
    }
}

/// The code tree of a table that is not empty has the byte values of the table
/// at its leaves. Where the table holds more than one byte value, the tree is a
/// branch.
pub proof fn lemma_huffman_tree_symbols(table: Map<u8, u64>)
    requires
        !table.is_empty(),
    ensures
        huffman_tree(table).symbols() == table.dom(),
        forall|a: u8, b: u8|
            a != b && table.contains_key(a) && table.contains_key(b) ==> huffman_tree(
                table,
            ).value is None,
{
    let list = leaves_from(table, 0);
    lemma_leaves_symbols(table, 0);
    lemma_leaves_total(table, 0);
    assert(list.len() > 0) by {
        if list.len() == 0 {
            assert(table.dom() =~= Set::<u8>::empty());
        }
    }
    lemma_merged_symbols(list);
    assert(forest_symbols(list) =~= table.dom());
    assert forall|a: u8, b: u8|
        a != b && table.contains_key(a) && table.contains_key(b) implies huffman_tree(
        table,
    ).value is None by {
        let lo = if a < b {
            a
        } else {
            b
        };
        let hi = if a < b {
            b
        } else {
            a
        };
        lemma_leaves_symbols(table, lo as nat + 1);
        assert(leaves_from(table, 0).len() > leaves_from(table, lo as nat + 1).len());
        assert(leaves_from(table, lo as nat + 1).len() > leaves_from(table, hi as nat + 1).len());
    }
}

/// One more byte at the end of a buffer adds one to the sum of its frequency
/// table, counted over the byte values from `from` up, where the byte is among
/// them.
proof fn lemma_total_step(data: Seq<u8>, from: nat)
    requires
        0 < data.len() <= u64::MAX,
    ensures
        total_from(frequencies(data), from) == total_from(frequencies(data.drop_last()), from)
            + if data.last() >= from {
            1nat
        } else {
            0nat
        },
    decreases 256 - from,
{
    if from < 256 {
        lemma_total_step(data, from + 1);
        let b = from as u8;
        lemma_occurrences_bound(data, b);
        lemma_occurrences_bound(data.drop_last(), b);
    }
}

/// The frequencies of a buffer add up to its length.
pub proof fn lemma_frequencies_total(data: Seq<u8>)
    requires
        data.len() <= u64::MAX,
    ensures
        total(frequencies(data)) == data.len(),
    decreases data.len(),
{
    if data.len() == 0 {
        lemma_total_of_nothing(frequencies(data), 0);
    } else {
        lemma_frequencies_total(data.drop_last());
        lemma_total_step(data, 0);
    }
}

/// A table without entries from `from` up adds up to nothing there.
proof fn lemma_total_of_nothing(table: Map<u8, u64>, from: nat)
    requires
        forall|b: u8| b >= from ==> !table.contains_key(b),
    ensures
        total_from(table, from) == 0,
    decreases 256 - from,
{
    if from < 256 {
        lemma_total_of_nothing(table, from + 1);
    }
}

/// The worklist of a table with one byte value holds the leaf of that value, from
/// that value down.
proof fn lemma_single_leaves(table: Map<u8, u64>, symbol: u8, from: nat)
    requires
        forall|b: u8| table.contains_key(b) <==> b == symbol,
    ensures
        leaves_from(table, from) == if from <= symbol {
            seq![Node::leaf(table[symbol], symbol)]
        } else {
            Seq::<Node>::empty()
        },
    decreases 256 - from,
{
    if from < 256 {
        lemma_single_leaves(table, symbol, from + 1);
        if from == symbol {
            let leaf = Node::leaf(table[symbol], symbol);
            assert(insert_by_freq(Seq::<Node>::empty(), leaf) =~= seq![leaf]);
        }
    }
}

/// The code tree of a table with one byte value is the leaf of that value.
pub proof fn lemma_single_symbol_tree(table: Map<u8, u64>, symbol: u8)
    requires
        forall|b: u8| table.contains_key(b) <==> b == symbol,
    ensures
        huffman_tree(table) == Node::leaf(table[symbol], symbol),
{
    lemma_single_leaves(table, symbol, 0);
}

/// Whether a worklist is in descending order of frequency.
pub open spec fn is_ordered(list: Seq<Node>) -> bool {
    forall|i: int, j: int| 0 <= i < j < list.len() ==> list[i].freq >= list[j].freq
}

/// Whether a worklist holds trees of the shape of a code tree, no byte value in
/// two of them, whose leaves hold the frequencies of `table`.
pub open spec fn is_forest_of(list: Seq<Node>, table: Map<u8, u64>) -> bool {
    &&& forall|i: int| 0 <= i < list.len() ==> (#[trigger] list[i]).is_proper()
    &&& forall|i: int| 0 <= i < list.len() ==> (#[trigger] list[i]).agrees_with(table)
    &&& forall|i: int, j: int|
        0 <= i < list.len() && 0 <= j < list.len() && i != j ==> (#[trigger] list[i]).symbols().disjoint(
            (#[trigger] list[j]).symbols(),
        )
}

/// Where a tree joins a worklist: every tree from that place on has a lower
/// frequency, and the tree before it has none. In an ordered list every tree before
/// that place has a frequency at least as high, and the list stays ordered.
pub proof fn lemma_insert_keeps_order(list: Seq<Node>, node: Node)
    ensures
        forall|i: int|
            insert_position(list, node.freq) <= i < list.len() ==> (#[trigger] list[i]).freq
                < node.freq,
        is_ordered(list) ==> forall|i: int|
            0 <= i < insert_position(list, node.freq) ==> (#[trigger] list[i]).freq >= node.freq,
        is_ordered(list) ==> is_ordered(insert_by_freq(list, node)),
    decreases list.len(),
{
    let at = insert_position(list, node.freq) as int;
    lemma_insert_position_bound(list, node.freq);
    if !(list.len() == 0 || list.last().freq >= node.freq) {
        let init = list.drop_last();
        lemma_insert_keeps_order(init, node);
        assert forall|i: int| at <= i < list.len() implies (#[trigger] list[i]).freq
            < node.freq by {
            if i < init.len() {
                assert(init[i] == list[i]);
            }
        }
    }
    if is_ordered(list) {
        assert forall|i: int| 0 <= i < at implies (#[trigger] list[i]).freq >= node.freq by {
            if list.len() == 0 || list.last().freq >= node.freq {
                assert(list[i].freq >= list[list.len() - 1].freq);
            } else {
                let init = list.drop_last();
                assert forall|a: int, b: int| 0 <= a < b < init.len() implies init[a].freq
                    >= init[b].freq by {
                    assert(init[a] == list[a] && init[b] == list[b]);
                }
                assert(init[i] == list[i]);
            }
        }
        let joined = insert_by_freq(list, node);
        assert forall|i: int, j: int| 0 <= i < j < joined.len() implies joined[i].freq
            >= joined[j].freq by {
            if j < at {
                assert(joined[i] == list[i] && joined[j] == list[j]);
            } else if j == at {
                assert(joined[i] == list[i]);
            } else if i < at {
                assert(joined[i] == list[i] && joined[j] == list[j - 1]);
            } else if i == at {
                assert(joined[j] == list[j - 1]);
            } else {
                assert(joined[i] == list[i - 1] && joined[j] == list[j - 1]);
            }
        }
    }
}

/// Whether a worklist holds leaves only, each for a byte value of `table` and
/// with the frequency of that value, in descending order of frequency, and leaves
/// of one frequency in descending order of their byte values.
pub open spec fn is_leaf_list_of(list: Seq<Node>, table: Map<u8, u64>) -> bool {
    &&& forall|i: int|
        0 <= i < list.len() ==> (#[trigger] list[i]).value is Some && table.contains_key(
            list[i].value->0,
        ) && list[i] == Node::leaf(table[list[i].value->0], list[i].value->0)
    &&& forall|i: int, j: int|
        0 <= i < j < list.len() ==> (#[trigger] list[i]).freq > (#[trigger] list[j]).freq || (
        list[i].freq == list[j].freq && list[i].value->0 > list[j].value->0)
}

/// The worklist of the leaves is in descending order of frequency, and leaves of
/// one frequency are in descending order of their byte values. It holds leaves
/// for byte values of the table from `from` up, each with the frequency of its
/// value.
pub proof fn lemma_leaves_ordered(table: Map<u8, u64>, from: nat)
    ensures
        is_leaf_list_of(leaves_from(table, from), table),
        is_ordered(leaves_from(table, from)),
        forall|i: int|
            0 <= i < leaves_from(table, from).len() ==> (#[trigger] leaves_from(
                table,
                from,
            )[i]).value->0 >= from,
    decreases 256 - from,
{
    if from < 256 {
        lemma_leaves_ordered(table, from + 1);
        let rest = leaves_from(table, from + 1);
        if table.contains_key(from as u8) {
            let leaf = Node::leaf(table[from as u8], from as u8);
            let at = insert_position(rest, leaf.freq) as int;
            let here = leaves_from(table, from);
            lemma_insert_position_bound(rest, leaf.freq);
            lemma_insert_keeps_order(rest, leaf);
            assert(here == rest.insert(at, leaf));
            assert forall|i: int| 0 <= i < here.len() implies (#[trigger] here[i]).value is Some
                && here[i].value->0 >= from && table.contains_key(here[i].value->0) && here[i]
                == Node::leaf(table[here[i].value->0], here[i].value->0) by {
                if i < at {
                    assert(here[i] == rest[i]);
                } else if i > at {
                    assert(here[i] == rest[i - 1]);
                }
            }
            assert forall|i: int, j: int| 0 <= i < j < here.len() implies (
            #[trigger] here[i]).freq > (#[trigger] here[j]).freq || (here[i].freq
                == here[j].freq && here[i].value->0 > here[j].value->0) by {
                if j < at {
                    assert(here[i] == rest[i] && here[j] == rest[j]);
                } else if j == at {
                    assert(here[i] == rest[i]);
                    assert(rest[i].freq >= leaf.freq);
                } else if i < at {
                    assert(here[i] == rest[i] && here[j] == rest[j - 1]);
                } else if i == at {
                    assert(here[j] == rest[j - 1]);
                    assert(rest[j - 1].freq < leaf.freq);
                } else {
                    assert(here[i] == rest[i - 1] && here[j] == rest[j - 1]);
                }
            }
        }
    }
}

/// One step of merging joins two trees of the lowest frequencies of an ordered
/// worklist, and leaves the list ordered.
pub proof fn lemma_merge_step_ordered(list: Seq<Node>)
    requires
        list.len() >= 2,
        is_ordered(list),
    ensures
        forall|i: int|
            0 <= i < list.len() ==> (#[trigger] list[i]).freq >= list[list.len() - 2].freq
                || i == list.len() - 1,
        list[list.len() - 2].freq >= list[list.len() - 1].freq,
        is_ordered(merge_step(list)),
        merged(list) == merged(merge_step(list)),
{
    let n = list.len() as int;
    let rest = list.take(n - 2);
    assert forall|a: int, b: int| 0 <= a < b < rest.len() implies rest[a].freq
        >= rest[b].freq by {
        assert(rest[a] == list[a] && rest[b] == list[b]);
    }
    lemma_insert_keeps_order(rest, Node::branch(list[n - 1], list[n - 2]));
}

/// One step of merging keeps a worklist a forest of code trees, and keeps the sum
/// of its frequencies.
proof fn lemma_merge_step_forest(list: Seq<Node>, table: Map<u8, u64>)
    requires
        list.len() >= 2,
        is_forest_of(list, table),
        forest_total(list) <= u64::MAX,
    ensures
        is_forest_of(merge_step(list), table),
        forest_total(merge_step(list)) == forest_total(list),
        merge_step(list).len() == list.len() - 1,
{
    let n = list.len() as int;
    let rest = list.take(n - 2);
    let left = list[n - 1];
    let right = list[n - 2];
    let node = Node::branch(left, right);
    let at = insert_position(rest, node.freq) as int;
    let next = merge_step(list);
    lemma_insert_position_bound(rest, node.freq);
    lemma_forest_total_insert(rest, at, node);
    let shorter = list.drop_last();
    assert(shorter.drop_last() =~= rest);
    assert(forest_total(shorter) == forest_total(rest) + right.freq);
    assert(forest_total(list) == forest_total(shorter) + left.freq);
    assert(node.freq == left.freq + right.freq);
    assert(left.is_proper() && right.is_proper());
    assert(left.symbols().disjoint(right.symbols()));
    assert(node.is_proper());
    assert(left.agrees_with(table) && right.agrees_with(table));
    assert(node.agrees_with(table));
    assert(Node::child_symbols(node.left) == left.symbols());
    assert(Node::child_symbols(node.right) == right.symbols());
    assert forall|k: int| 0 <= k < rest.len() implies rest[k] == list[k] && (
    #[trigger] rest[k]).symbols().disjoint(node.symbols()) && node.symbols().disjoint(
        rest[k].symbols(),
    ) by {
        assert(list[k].symbols().disjoint(left.symbols()));
        assert(list[k].symbols().disjoint(right.symbols()));
        assert(left.symbols().disjoint(list[k].symbols()));
        assert(right.symbols().disjoint(list[k].symbols()));
    }
    assert forall|i: int| 0 <= i < next.len() implies (#[trigger] next[i]).is_proper()
        && next[i].agrees_with(table) by {
        if i < at {
            assert(next[i] == rest[i]);
        } else if i > at {
            assert(next[i] == rest[i - 1]);
        }
    }
    assert forall|i: int, j: int|
        0 <= i < next.len() && 0 <= j < next.len() && i != j implies (
    #[trigger] next[i]).symbols().disjoint((#[trigger] next[j]).symbols()) by {
        let a = if i < at {
            i
        } else {
            i - 1
        };
        let b = if j < at {
            j
        } else {
            j - 1
        };
        if i != at {
            assert(next[i] == rest[a]);
        }
        if j != at {
            assert(next[j] == rest[b]);
        }
        if i != at && j != at {
            assert(list[a].symbols().disjoint(list[b].symbols()));
        }
    }
}

/// A forest of code trees is merged to a code tree: a tree of that shape whose
/// leaves hold the frequencies of the table and whose root holds their sum.
pub proof fn lemma_merged_proper(list: Seq<Node>, table: Map<u8, u64>)
    requires
        list.len() >= 1,
        is_forest_of(list, table),
        forest_total(list) <= u64::MAX,
    ensures
        merged(list).is_proper(),
        merged(list).agrees_with(table),
        merged(list).freq == forest_total(list),
    decreases list.len(),
{
    if list.len() == 1 {
        assert(list.drop_last() =~= Seq::<Node>::empty());
        assert(forest_total(list.drop_last()) == 0);
        assert(list.last() == list[0]);
    } else {
        lemma_merge_step_forest(list, table);
        lemma_merged_proper(merge_step(list), table);
    }
}

/// The code tree of a frequency table has the shape of a code tree: a leaf for
/// each byte value of the table, with its frequency, and at each branch the sum of
/// the frequencies below it, so that the root holds the sum of the table.
pub proof fn lemma_huffman_tree_proper(table: Map<u8, u64>)
    requires
        !table.is_empty(),
        total(table) <= u64::MAX,
    ensures
        huffman_tree(table).is_proper(),
        huffman_tree(table).agrees_with(table),
        huffman_tree(table).symbols() == table.dom(),
        huffman_tree(table).freq == total(table),
{
    let list = leaves_from(table, 0);
    lemma_leaves_ordered(table, 0);
    lemma_leaves_total(table, 0);
    lemma_huffman_tree_symbols(table);
    assert(list.len() > 0) by {
        if list.len() == 0 {
            assert(table.dom() =~= Set::<u8>::empty());
        }
    }
    assert forall|i: int, j: int|
        0 <= i < list.len() && 0 <= j < list.len() && i != j implies (
    #[trigger] list[i]).symbols().disjoint((#[trigger] list[j]).symbols()) by {
        if i < j {
            assert(list[i].freq > list[j].freq || list[i].value->0 > list[j].value->0);
        } else {
            assert(list[j].freq > list[i].freq || list[j].value->0 > list[i].value->0);
        }
    }
    lemma_merged_proper(list, table);
}

} // verus!
