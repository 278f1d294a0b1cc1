//! The innovation ledger: an append-only record giving each structural
//! mutation (a directed node pair) a stable integer id, deduplicated within
//! the window of entries created since the start of the current generation.

use vstd::prelude::*;

verus! {

/// One ledger entry: a directed node pair and its allocation-order id.
#[derive(Clone, Copy, PartialEq, Eq, Structural)]
pub struct Innov {
    pub from: usize,
    pub to: usize,
    pub number: usize,
}

/// A well-formed ledger numbers its entries in allocation order.
pub open spec fn ledger_wf(innovs: Seq<Innov>) -> bool {
    forall|i: int| 0 <= i < innovs.len() ==> (#[trigger] innovs[i]).number == i
}

/// True when some entry in `[since, innovs.len())` records the pair `(from, to)`.
pub open spec fn window_has_pair(innovs: Seq<Innov>, since: int, from: usize, to: usize) -> bool {
    exists|i: int|
        since <= i < innovs.len() && (#[trigger] innovs[i]).from == from && innovs[i].to == to
}

/// Returns the id for the structural mutation `from -> to`: the id of the
/// first entry recording that pair since `old_innovs_count` (the ledger
/// length at generation start) if one exists, else the id of a freshly
/// appended entry. The ledger only grows.
pub fn allocate_or_reuse(
    innovs: &mut Vec<Innov>,
    old_innovs_count: usize,
    from: usize,
    to: usize,
) -> (r: usize)
    requires
        old_innovs_count <= old(innovs)@.len(),
        ledger_wf(old(innovs)@),
    ensures
        ledger_wf(final(innovs)@),
        r < final(innovs)@.len(),
        final(innovs)@[r as int].from == from && final(innovs)@[r as int].to == to,
        window_has_pair(old(innovs)@, old_innovs_count as int, from, to) ==> {
            &&& final(innovs)@ == old(innovs)@
            &&& old_innovs_count <= r
            &&& forall|i: int|
                old_innovs_count <= i < r ==> !((#[trigger] final(innovs)@[i]).from == from
                    && final(innovs)@[i].to == to)
        },
        !window_has_pair(old(innovs)@, old_innovs_count as int, from, to) ==> {
            &&& final(innovs)@ == old(innovs)@.push(
                Innov { from, to, number: old(innovs)@.len() as usize },
            )
            &&& r == old(innovs)@.len()
        },
{
    let len = innovs.len();
    let mut i = old_innovs_count;
    while i < len
        invariant
            old_innovs_count <= i <= len,
            len == innovs@.len(),
            innovs@ == old(innovs)@,
            ledger_wf(innovs@),
            forall|k: int|
                old_innovs_count <= k < i ==> !((#[trigger] innovs@[k]).from == from
                    && innovs@[k].to == to),
        decreases len - i,
    {
        if innovs[i].from == from && innovs[i].to == to {
            return i;
        }
        i += 1;
    }
    let number = innovs.len();
    innovs.push(Innov { from, to, number });
    number
}

} // verus!
