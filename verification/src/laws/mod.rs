//! What the formats and the operations are for, said from the other side: how something is written
//! down, and what reading it, applying it or listing it has to give.

pub mod arguments;
pub mod codes;
pub mod dates;
pub mod deltas;
pub mod documents;
pub mod frames;
pub mod messages;
pub mod objects;
pub mod packs;
pub mod paths;
pub mod printed;
pub mod requests;
pub mod responses;
pub mod streams;
pub mod strings;
pub mod sums;
pub mod transfers;
pub mod trees;

use vstd::prelude::*;

verus! {

/// The bytes `part` stand in `data` from `p` on.
pub open spec fn stands_at(data: Seq<u8>, p: int, part: Seq<u8>) -> bool {
    0 <= p && p + part.len() <= data.len() && data.subrange(p, p + part.len()) == part
}

/// What stands in two parts stands one after the other.
pub proof fn lemma_stands_split(data: Seq<u8>, p: int, a: Seq<u8>, b: Seq<u8>)
    requires
        stands_at(data, p, a + b),
    ensures
        stands_at(data, p, a),
        stands_at(data, p + a.len(), b),
{
    let whole = data.subrange(p, p + (a + b).len());
    assert(whole == a + b);
    assert(data.subrange(p, p + a.len()) =~= a) by {
        assert forall|i: int| 0 <= i < a.len() implies data[p + i] == #[trigger] a[i] by {
            assert(whole[i] == (a + b)[i]);
        }
    }
    assert(data.subrange(p + a.len(), p + a.len() + b.len()) =~= b) by {
        assert forall|i: int| 0 <= i < b.len() implies data[p + a.len() + i] == #[trigger] b[i] by {
            assert(whole[a.len() + i] == (a + b)[a.len() + i]);
        }
    }
}

/// The bytes of what stands somewhere.
pub proof fn lemma_stands_byte(data: Seq<u8>, p: int, part: Seq<u8>, i: int)
    requires
        stands_at(data, p, part),
        0 <= i < part.len(),
    ensures
        data[p + i] == part[i],
{
    assert(data.subrange(p, p + part.len())[i] == part[i]);
}

} // verus!
