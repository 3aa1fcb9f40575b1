//! Bounds-checked decoding of directory-change record batches.
//!
//! A delivered batch is a chain of variable-length records. Each record
//! holds, at fixed offsets, the byte offset of the next record (zero ends
//! the chain), an action word, the byte length of the name, and then the
//! name itself as 16-bit units.

use crate::reparse::{spec_u32_at, u32_at, units_at, DecodeError};
use crate::wide::lemma_components_deep_view;
use crate::wide::lemma_units_deep_view;
use vstd::prelude::*;

verus! {

/// The names carried by the records of a batch starting at byte offset `o`;
/// `None` means the batch is malformed.
pub open spec fn spec_parse_records(b: Seq<u8>, o: int) -> Option<Seq<Seq<u16>>>
    decreases b.len() - o,
{
    if o < 0 || o + 12 > b.len() {
        None
    } else {
        let next = spec_u32_at(b, o);
        let nlen = spec_u32_at(b, o + 8);
        if nlen % 2 != 0 || o + 12 + nlen > b.len() {
            None
        } else {
            let name = crate::reparse::spec_units_at(b, o + 12, nlen / 2);
            if next == 0 {
                Some(seq![name])
            } else if o + next + 12 > b.len() {
                None
            } else {
                match spec_parse_records(b, o + next) {
                    None => None,
                    Some(rest) => Some(seq![name] + rest),
                }
            }
        }
    }
}

/// Decode a batch of change records into the names they carry.
///
/// Returns `Err` exactly on the batches the specification-level decoding
/// calls malformed.
pub fn parse_records(b: &Vec<u8>) -> (r: Result<Vec<Vec<u16>>, DecodeError>)
    ensures
        match r {
            Ok(names) => spec_parse_records(b@, 0) == Some(names.deep_view()),
            Err(_) => spec_parse_records(b@, 0) is None,
        },
{
    broadcast use lemma_units_deep_view, lemma_components_deep_view;

    let n = b.len();
    let mut names: Vec<Vec<u16>> = Vec::new();
    let mut o: usize = 0;
    proof {
        assert(names.deep_view() =~~= Seq::<Seq<u16>>::empty());
        let r0 = spec_parse_records(b@, 0);
        if r0 is Some {
            assert(names.deep_view() + r0->0 =~= r0->0);
        }
    }
    loop
        invariant
            n == b@.len(),
            o <= n,
            spec_parse_records(b@, 0) == (match spec_parse_records(b@, o as int) {
                None => None::<Seq<Seq<u16>>>,
                Some(rest) => Some(names.deep_view() + rest),
            }),
        decreases n - o,
    {
        if n - o < 12 {
            return Err(DecodeError::Malformed);
        }
        let next = u32_at(b, o);
        let nlen32 = u32_at(b, o + 8);
        let nlen = nlen32 as usize;
        if nlen % 2 != 0 || nlen > n - (o + 12) {
            return Err(DecodeError::Malformed);
        }
        let name = units_at(b, o + 12, nlen / 2);
        let ghost prev_vec = names;
        names.push(name);
        proof {
            assert(names.deep_view().len() == prev_vec@.len() + 1);
            assert forall|k: int| 0 <= k < names.deep_view().len() implies names.deep_view()[k]
                == (prev_vec.deep_view() + seq![name@])[k] by {
                lemma_components_deep_view(names, k);
                if k < prev_vec@.len() {
                    lemma_components_deep_view(prev_vec, k);
                }
            }
            assert(names.deep_view() =~= prev_vec.deep_view() + seq![name@]);
        }
        if next == 0 {
            proof {
                assert(spec_parse_records(b@, o as int) == Some(seq![name@]));
                assert(prev_vec.deep_view() + seq![name@] =~= names.deep_view());
            }
            return Ok(names);
        }
        let step = next as usize;
        if step > n - o || n - (o + step) < 12 {
            // The chain would leave the buffer before the next header.
            return Err(DecodeError::Malformed);
        }
        proof {
            let rest0 = spec_parse_records(b@, o + step);
            assert(spec_parse_records(b@, o as int) == (match rest0 {
                None => None::<Seq<Seq<u16>>>,
                Some(rest) => Some(seq![name@] + rest),
            }));
            if rest0 is Some {
                assert(names.deep_view() + rest0->0 =~= prev_vec.deep_view() + (seq![name@]
                    + rest0->0));
            }
        }
        o = o + step;
    }
}

} // verus!
