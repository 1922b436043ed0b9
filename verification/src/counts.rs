//! Counting how often each byte value occurs.

use vstd::prelude::*;

verus! {

/// How often each byte value occurs in an input: the count of byte `b` is
/// at index `b`. A byte that does not occur has count zero.
#[derive(Clone, Copy)]
pub struct SymbolCounts {
    pub counts: [u32; 256],
}

impl View for SymbolCounts {
    type V = Seq<u32>;

    open spec fn view(&self) -> Seq<u32> {
        self.counts@
    }
}

/// How often `symbol` occurs in `input`.
pub open spec fn occurrences(input: Seq<u8>, symbol: u8) -> nat {
    input.to_multiset().count(symbol)
}

/// The table of the counts of all byte values in `input`.
pub open spec fn counts_of(input: Seq<u8>) -> Seq<u32> {
    Seq::new(256, |s: int| occurrences(input, s as u8) as u32)
}

/// The sum of the first `n` counts.
pub open spec fn total(counts: Seq<u32>, n: int) -> nat
    decreases n,
{
    if n <= 0 {
        0
    } else {
        total(counts, n - 1) + counts[n - 1] as nat
    }
}

/// The number of nonzero counts among the first `n`: the number of distinct
/// byte values that occur.
pub open spec fn distinct_symbols(counts: Seq<u32>, n: int) -> nat
    decreases n,
{
    if n <= 0 {
        0
    } else {
        distinct_symbols(counts, n - 1) + if counts[n - 1] > 0 {
            1nat
        } else {
            0nat
        }
    }
}

/// One more occurrence of a byte raises its count by one and leaves the
/// other counts as they are.
pub proof fn lemma_occurrences_push(input: Seq<u8>, b: u8, symbol: u8)
    ensures
        occurrences(input.push(b), symbol) == occurrences(input, symbol) + if symbol == b {
            1nat
        } else {
            0nat
        },
        occurrences(Seq::<u8>::empty(), symbol) == 0,
{
    broadcast use vstd::seq_lib::group_to_multiset_ensures;

    assert(input.push(b).to_multiset() =~= input.to_multiset().insert(b));
    assert(Seq::<u8>::empty().to_multiset().len() == 0);
}

/// Raising one count by one raises the sum by one where the count is among
/// the summed ones.
pub proof fn lemma_total_update(counts: Seq<u32>, k: int, v: u32, n: int)
    requires
        0 <= k < counts.len(),
        0 <= n <= counts.len(),
    ensures
        total(counts.update(k, v), n) == if k < n {
            total(counts, n) - counts[k] + v
        } else {
            total(counts, n) as int
        },
        k < n ==> counts[k] <= total(counts, n),
    decreases n,
{
    if n > 0 {
        lemma_total_update(counts, k, v, n - 1);
    }
}

/// No byte value occurs more often than the input is long.
pub proof fn lemma_occurrences_le_len(input: Seq<u8>, symbol: u8)
    ensures
        occurrences(input, symbol) <= input.len(),
    decreases input.len(),
{
    if input.len() > 0 {
        lemma_occurrences_le_len(input.drop_last(), symbol);
        lemma_occurrences_push(input.drop_last(), input.last(), symbol);
        assert(input.drop_last().push(input.last()) =~= input);
    } else {
        assert(input =~= Seq::<u8>::empty());
        lemma_occurrences_push(input, 0, symbol);
    }
}

/// A byte value occurs in the input exactly if its count is not zero.
pub proof fn lemma_occurs_iff_counted(input: Seq<u8>, symbol: u8)
    ensures
        input.contains(symbol) <==> occurrences(input, symbol) > 0,
{
    broadcast use vstd::seq_lib::group_to_multiset_ensures;

}

/// Counts the occurrences of each byte value in `input`.
pub fn count_symbols(input: &[u8]) -> (symbol_counts: SymbolCounts)
    requires
        input@.len() <= u32::MAX,
    ensures
        symbol_counts@ == counts_of(input@),
        forall|s: u8| symbol_counts@[s as int] == occurrences(input@, s),
        total(symbol_counts@, 256) == input@.len(),
{
    let mut counts = [0u32; 256];
    proof {
        assert forall|s: int| 0 <= s < 256 implies counts@[s] == counts_of(input@.take(0))[s] by {
            assert(input@.take(0) =~= Seq::<u8>::empty());
            lemma_occurrences_push(Seq::empty(), 0, s as u8);
        }
        assert(counts@ =~= counts_of(input@.take(0)));
        lemma_total_zero(counts@, 256);
    }
    let mut i: usize = 0;
    while i < input.len()
        invariant
            i <= input@.len() <= u32::MAX,
            counts@ == counts_of(input@.take(i as int)),
            total(counts@, 256) == i,
        decreases input.len() - i,
    {
        let b = input[i];
        let slot = b as usize;
        let ghost before = counts@;
        proof {
            lemma_total_update(before, slot as int, 0, 256);
        }
        counts[slot] = counts[slot] + 1;
        proof {
            lemma_total_update(before, slot as int, (before[slot as int] + 1) as u32, 256);
            let shorter = input@.take(i as int);
            let longer = input@.take(i + 1);
            assert(longer =~= shorter.push(b));
            assert forall|s: int| 0 <= s < 256 implies counts@[s] == counts_of(longer)[s] by {
                lemma_occurrences_push(shorter, b, s as u8);
                lemma_occurrences_le_len(shorter, s as u8);
                lemma_occurrences_le_len(longer, s as u8);
            }
            assert(counts@ =~= counts_of(longer));
        }
        i += 1;
    }
    proof {
        assert(input@.take(input@.len() as int) =~= input@);
        assert forall|s: u8| counts@[s as int] == occurrences(input@, s) by {
            lemma_occurrences_le_len(input@, s);
        }
    }
    SymbolCounts { counts }
}

proof fn lemma_total_zero(counts: Seq<u32>, n: int)
    requires
        0 <= n <= counts.len(),
        forall|k: int| 0 <= k < n ==> counts[k] == 0,
    ensures
        total(counts, n) == 0,
    decreases n,
{
    if n > 0 {
        lemma_total_zero(counts, n - 1);
    }
}

} // verus!
