//! Byte classes shared by the reader and the writer, and the search for one
//! byte.
use vstd::prelude::*;

verus! {

/// A byte a JSON string cannot carry literally: `"`, `\`, or a control
/// character.
pub open spec fn spec_needs_escape(c: u8) -> bool {
    c < 0x20 || c == 0x22 || c == 0x5c
}

/// Is this a byte a JSON string cannot carry literally?
pub fn needs_escape(c: u8) -> (r: bool)
    ensures
        r == spec_needs_escape(c),
{
    c < 0x20 || c == 0x22u8 || c == 0x5cu8
}

/// The first index at or after `from` holding `b`, if there is one.
pub open spec fn first_byte_from(data: Seq<u8>, from: int, b: u8) -> Option<int>
    decreases data.len() - from,
{
    if from < 0 || from >= data.len() {
        None
    } else if data[from] == b {
        Some(from)
    } else {
        first_byte_from(data, from + 1, b)
    }
}

pub proof fn lemma_first_byte_from(data: Seq<u8>, from: int, b: u8)
    requires
        0 <= from,
    ensures
        match first_byte_from(data, from, b) {
            Some(k) => from <= k < data.len() && data[k] == b && forall|j: int|
                from <= j < k ==> data[j] != b,
            None => forall|j: int| from <= j < data.len() ==> data[j] != b,
        },
    decreases data.len() - from,
{
    if from < data.len() && data[from] != b {
        lemma_first_byte_from(data, from + 1, b);
    }
}

/// Offset of the first `b` at or after `from`, if there is one.
pub fn find_byte(data: &[u8], from: usize, b: u8) -> (r: Option<usize>)
    ensures
        r == (match first_byte_from(data@, from as int, b) {
            Some(k) => Some(k as usize),
            None => None::<usize>,
        }),
{
    let n = data.len();
    let mut i = from;
    while i < n
        invariant
            n == data@.len(),
            from <= i,
            first_byte_from(data@, from as int, b) == first_byte_from(data@, i as int, b),
        decreases n - i,
    {
        if data[i] == b {
            return Some(i);
        }
        i += 1;
    }
    None
}

} // verus!
