use std::collections::HashMap;
use vstd::prelude::*;

verus! {

/// How often each byte value occurs; a value that does not occur has no entry.
pub type FrequencyMap = HashMap<u8, u64>;

/// The number of positions of `data` that hold `byte`.
pub open spec fn occurrences(data: Seq<u8>, byte: u8) -> nat
    decreases data.len(),
{
    if data.len() == 0 {
        0
    } else {
        occurrences(data.drop_last(), byte) + if data.last() == byte {
            1nat
        } else {
            0nat
        }
    }
}

/// The frequency table of `data`: an entry for each byte value that occurs, with
/// the number of its occurrences.
pub open spec fn frequencies(data: Seq<u8>) -> Map<u8, u64> {
    Map::new(|byte: u8| occurrences(data, byte) > 0, |byte: u8| occurrences(data, byte) as u64)
}

/// A byte value occurs at most as often as there are positions.
pub proof fn lemma_occurrences_bound(data: Seq<u8>, byte: u8)
    ensures
        occurrences(data, byte) <= data.len(),
    decreases data.len(),
{
    if data.len() > 0 {
        lemma_occurrences_bound(data.drop_last(), byte);
    }
}

/// A byte value has an entry in the frequency table exactly if it stands somewhere
/// in the data.
pub proof fn lemma_frequencies_dom(data: Seq<u8>, byte: u8)
    ensures
        frequencies(data).contains_key(byte) <==> data.contains(byte),
    decreases data.len(),
{
    if data.len() > 0 {
        let init = data.drop_last();
        lemma_frequencies_dom(init, byte);
        if data.contains(byte) {
            let i = choose|i: int| 0 <= i < data.len() && data[i] == byte;
            if i < init.len() {
                assert(init[i] == byte);
            }
        }
        if init.contains(byte) {
            let i = choose|i: int| 0 <= i < init.len() && init[i] == byte;
            assert(data[i] == byte);
        }
        if data.last() == byte {
            assert(data[data.len() - 1] == byte);
        }
    }
}

/// Counts how often each byte value occurs in `data`, in one pass.
pub fn build(data: &[u8]) -> (table: FrequencyMap)
    ensures
        table@ == frequencies(data@),
{
    let mut table: HashMap<u8, u64> = HashMap::new();
    let mut i: usize = 0;
    assert(table@ =~= frequencies(data@.take(0)));
    while i < data.len()
        invariant
            i <= data.len(),
            table@ == frequencies(data@.take(i as int)),
        decreases data.len() - i,
    {
        let byte = data[i];
        let seen: u64 = match table.get(&byte) {
            Some(n) => *n,
            None => 0,
        };
        proof {
            lemma_occurrences_bound(data@.take(i as int), byte);
        }
        table.insert(byte, seen + 1);
        i += 1;
        proof {
            let now = data@.take(i as int);
            assert(now.drop_last() =~= data@.take(i - 1));
            assert forall|b: u8| occurrences(now, b) <= i by {
                lemma_occurrences_bound(now, b);
            }
            assert(table@ =~= frequencies(now));
        }
    }
    assert(data@.take(i as int) =~= data@);
    table
}

/// A table that can be built by counting the bytes of a buffer.
pub trait FrequencyMapping: View<V = Map<u8, u64>> + Sized {
    /// The frequency table of `data`.
    fn build(data: &[u8]) -> (table: Self)
        ensures
            table@ == frequencies(data@),
    ;
}

impl FrequencyMapping for FrequencyMap {
    fn build(data: &[u8]) -> (table: Self) {
        self::build(data)
    }
}

} // verus!
