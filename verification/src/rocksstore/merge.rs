//! The merge of stored values: the existing value, then every operand, end to end.
use vstd::prelude::*;

use crate::rocksstore::keys::push_bytes;

verus! {

/// The byte strings of `parts`, end to end.
pub open spec fn concat_all(parts: Seq<Seq<u8>>) -> Seq<u8>
    decreases parts.len(),
{
    if parts.len() == 0 {
        Seq::empty()
    } else {
        concat_all(parts.drop_last()) + parts.last()
    }
}

/// The value a merge leaves: the existing value, if any, followed by each
/// operand in order.
pub open spec fn merged_value(existing: Option<Seq<u8>>, operands: Seq<Seq<u8>>) -> Seq<u8> {
    match existing {
        Some(v) => v + concat_all(operands),
        None => concat_all(operands),
    }
}

/// Merges the operands into the existing value by concatenation.
pub fn provided_merge(existing: Option<&[u8]>, operands: &Vec<Vec<u8>>) -> (r: Vec<u8>)
    ensures
        r@ == merged_value(
            match existing {
                Some(v) => Some(v@),
                None => None,
            },
            operands@.map_values(|o: Vec<u8>| o@),
        ),
{
    let ghost ops = operands@.map_values(|o: Vec<u8>| o@);
    let mut result: Vec<u8> = Vec::new();
    if let Some(v) = existing {
        push_bytes(&mut result, v);
    }
    let ghost base = result@;
    let mut i: usize = 0;
    while i < operands.len()
        invariant
            i <= operands@.len(),
            ops == operands@.map_values(|o: Vec<u8>| o@),
            result@ == base + concat_all(ops.take(i as int)),
        decreases operands@.len() - i,
    {
        push_bytes(&mut result, operands[i].as_slice());
        proof {
            assert(ops.take(i + 1).drop_last() =~= ops.take(i as int));
            assert(ops.take(i + 1).last() == operands@[i as int]@);
            assert(result@ =~= base + concat_all(ops.take(i + 1)));
        }
        i = i + 1;
    }
    assert(ops.take(i as int) =~= ops);
    proof {
        if existing is None {
            assert(base =~= Seq::<u8>::empty());
            assert(result@ =~= concat_all(ops));
        }
    }
    result
}

} // verus!
