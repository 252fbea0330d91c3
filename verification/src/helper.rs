//! Symbol search over byte strings, shared by the text formats.

use vstd::prelude::*;
use vstd::slice::slice_to_vec;

verus! {

/// Why a decode step refused its input.
#[derive(Debug, Clone, Copy, PartialEq, Eq)]
pub enum DecodeError {
    /// The context holds no value for the symbol that a length calculation reads.
    SymbolNotInContext,
    /// The searched symbol does not occur in the input.
    SymbolNotFound,
}

/// The outcome of a decode step that cut the first `n` bytes off `input`:
/// those bytes, and the rest of the input after them.
pub open spec fn is_cut<'a>(r: Result<(&'a [u8], Vec<u8>), DecodeError>, input: Seq<u8>, n: int) -> bool {
    &&& r is Ok
    &&& r.unwrap().1@ == input.subrange(0, n)
    &&& r.unwrap().0@ == input.subrange(n, input.len() as int)
}

/// A decode step that cuts `n` bytes off its input loses nothing and adds
/// nothing: the bytes cut off, then the rest, are the input.
pub proof fn lemma_cut_partitions<'a>(
    r: Result<(&'a [u8], Vec<u8>), DecodeError>,
    input: Seq<u8>,
    n: int,
)
    requires
        0 <= n <= input.len(),
        is_cut(r, input, n),
    ensures
        r.unwrap().1@ + r.unwrap().0@ == input,
{
    assert(input.subrange(0, n) + input.subrange(n, input.len() as int) =~= input);
}

/// The outcome of a decode step that failed with `e`.
pub open spec fn is_failure<'a>(r: Result<(&'a [u8], Vec<u8>), DecodeError>, e: DecodeError) -> bool {
    r == Err::<(&'a [u8], Vec<u8>), DecodeError>(e)
}

/// `symbol` occurs in `input` starting at index `i`.
pub open spec fn occurs_at(input: Seq<u8>, symbol: Seq<u8>, i: int) -> bool {
    &&& 0 <= i
    &&& i + symbol.len() <= input.len()
    &&& input.subrange(i, i + symbol.len()) == symbol
}

/// The first index at or after `from` where `symbol` occurs in `input`.
pub open spec fn first_occurrence_from(input: Seq<u8>, symbol: Seq<u8>, from: int) -> Option<int>
    decreases input.len() + 1 - from,
{
    if from < 0 || from + symbol.len() > input.len() {
        None
    } else if occurs_at(input, symbol, from) {
        Some(from)
    } else {
        first_occurrence_from(input, symbol, from + 1)
    }
}

/// The first index where `symbol` occurs in `input`.
pub open spec fn first_occurrence(input: Seq<u8>, symbol: Seq<u8>) -> Option<int> {
    first_occurrence_from(input, symbol, 0)
}

/// `first_occurrence_from` finds an occurrence, and none lies between `from` and it.
pub proof fn lemma_first_occurrence_from(input: Seq<u8>, symbol: Seq<u8>, from: int)
    requires
        0 <= from,
    ensures
        first_occurrence_from(input, symbol, from) matches Some(p) ==> {
            &&& from <= p
            &&& occurs_at(input, symbol, p)
            &&& forall|j: int| from <= j < p ==> !occurs_at(input, symbol, j)
        },
        first_occurrence_from(input, symbol, from) is None ==> forall|j: int|
            from <= j ==> !occurs_at(input, symbol, j),
    decreases input.len() + 1 - from,
{
    if from + symbol.len() > input.len() {
    } else if occurs_at(input, symbol, from) {
    } else {
        lemma_first_occurrence_from(input, symbol, from + 1);
    }
}

/// The first occurrence is an occurrence, and nothing occurs before it; no
/// occurrence at all means the symbol occurs nowhere.
pub proof fn lemma_first_occurrence(input: Seq<u8>, symbol: Seq<u8>)
    ensures
        first_occurrence(input, symbol) matches Some(p) ==> {
            &&& occurs_at(input, symbol, p)
            &&& forall|j: int| 0 <= j < p ==> !occurs_at(input, symbol, j)
        },
        first_occurrence(input, symbol) is None ==> forall|j: int| !occurs_at(input, symbol, j),
{
    lemma_first_occurrence_from(input, symbol, 0);
}

/// An occurrence with none before it is the first occurrence.
pub proof fn lemma_first_occurrence_is(input: Seq<u8>, symbol: Seq<u8>, p: int)
    requires
        occurs_at(input, symbol, p),
        forall|j: int| 0 <= j < p ==> !occurs_at(input, symbol, j),
    ensures
        first_occurrence(input, symbol) == Some(p),
{
    lemma_first_occurrence(input, symbol);
    match first_occurrence(input, symbol) {
        None => {},
        Some(q) => {
            if q < p {
            } else if q > p {
            }
        },
    }
}

/// The first occurrence in `a` is the first occurrence in `a` followed by
/// anything.
pub proof fn lemma_first_occurrence_prefix(a: Seq<u8>, b: Seq<u8>, symbol: Seq<u8>)
    requires
        first_occurrence(a, symbol) is Some,
    ensures
        first_occurrence(a + b, symbol) == first_occurrence(a, symbol),
{
    lemma_first_occurrence(a, symbol);
    let p = first_occurrence(a, symbol).unwrap();
    let s = a + b;
    assert(s.subrange(p, p + symbol.len()) =~= a.subrange(p, p + symbol.len()));
    assert forall|j: int| 0 <= j < p implies !occurs_at(s, symbol, j) by {
        assert(!occurs_at(a, symbol, j));
        assert(j + symbol.len() <= a.len());
        assert(s.subrange(j, j + symbol.len()) =~= a.subrange(j, j + symbol.len()));
    }
    lemma_first_occurrence_is(s, symbol, p);
}

/// Whether `symbol` occurs in `input` at `at`.
fn matches_at(input: &[u8], symbol: &[u8], at: usize) -> (r: bool)
    requires
        at + symbol@.len() <= input@.len(),
    ensures
        r == occurs_at(input@, symbol@, at as int),
{
    let mut k: usize = 0;
    while k < symbol.len()
        invariant
            at + symbol.len() <= input.len(),
            k <= symbol.len(),
            forall|m: int| 0 <= m < k ==> input@[at + m] == symbol@[m],
        decreases symbol@.len() - k,
    {
        if input[at + k] != symbol[k] {
            assert(input@.subrange(at as int, at + symbol@.len())[k as int] != symbol@[k as int]);
            return false;
        }
        k = k + 1;
    }
    assert(input@.subrange(at as int, at + symbol@.len()) =~= symbol@);
    true
}

/// Index of the first occurrence of `symbol` in `input`, if any.
pub fn find_symbol(input: &[u8], symbol: &[u8]) -> (r: Option<usize>)
    requires
        symbol@.len() > 0,
    ensures
        r matches Some(p) ==> first_occurrence(input@, symbol@) == Some(p as int),
        r is None ==> first_occurrence(input@, symbol@) is None,
        r matches Some(p) ==> occurs_at(input@, symbol@, p as int) && forall|j: int|
            0 <= j < p ==> !occurs_at(input@, symbol@, j),
        r is None ==> forall|j: int| !occurs_at(input@, symbol@, j),
{
    proof {
        lemma_first_occurrence(input@, symbol@);
    }
    if symbol.len() > input.len() {
        return None;
    }
    let last: usize = input.len() - symbol.len();
    let mut i: usize = 0;
    while i <= last
        invariant
            last + symbol.len() == input.len(),
            symbol.len() > 0,
            i <= last + 1,
            first_occurrence(input@, symbol@) == first_occurrence_from(input@, symbol@, i as int),
        decreases last + 1 - i,
    {
        if matches_at(input, symbol, i) {
            assert(first_occurrence_from(input@, symbol@, i as int) == Some(i as int));
            proof {
                lemma_first_occurrence(input@, symbol@);
            }
            return Some(i);
        }
        i = i + 1;
    }
    None
}

/// Splits `input` just after the first occurrence of `symbol`, moved by
/// `offset`: the bytes before that point come back as an owned vector, the
/// rest as a slice.
pub fn find_symbol_with_offset<'a>(input: &'a [u8], symbol: &[u8], offset: usize) -> (r: Result<
    (&'a [u8], Vec<u8>),
    DecodeError,
>)
    requires
        symbol@.len() > 0,
        first_occurrence(input@, symbol@) matches Some(p) ==> p + offset <= input@.len(),
    ensures
        first_occurrence(input@, symbol@) matches Some(p) ==> is_cut(r, input@, p + offset),
        first_occurrence(input@, symbol@) is None ==> is_failure(r, DecodeError::SymbolNotFound),
{
    match find_symbol(input, symbol) {
        Some(pos) => {
            assert(pos + offset <= input.len());
            let cut = pos + offset;
            let (head, rest) = input.split_at(cut);
            Ok((rest, slice_to_vec(head)))
        },
        None => Err(DecodeError::SymbolNotFound),
    }
}

} // verus!
