//! The registry's standing guarantees, stated on their own. Each is
//! proved from what the operations' contracts already say, so a reader
//! can see the guarantee without re-deriving it.

use vstd::prelude::*;
use crate::config::{Config, sorted_by_id, spec_lookup, spec_remove_id, lemma_lookup_none};
use crate::forward::{spec_id, wf_forward};
use crate::text::{seq_lt, lemma_seq_lt_connected};

verus! {

/// Id determinism: every record of a well-formed registry carries the
/// id that its host and ports dictate.
pub proof fn lemma_id_determinism(c: Config, i: int)
    requires
        c.wf(),
        0 <= i < c@.len(),
    ensures
        c@[i].id == spec_id(c@[i].host, c@[i].local_port, c@[i].remote_port),
{
    assert(wf_forward(c@[i]));
}

/// Sorted-view total order: the sorted view of a well-formed registry
/// is strictly ascending by id, so every record appears exactly once
/// and no two records share an id.
pub proof fn lemma_sorted_view_total_order(c: Config)
    requires
        c.wf(),
    ensures
        sorted_by_id(c@),
        forall|i: int, j: int| 0 <= i < j < c@.len() ==> (#[trigger] c@[i]).id != (#[trigger] c@[j]).id,
{
    assert forall|i: int, j: int|
        0 <= i < j < c@.len() implies (#[trigger] c@[i]).id != (#[trigger] c@[j]).id by {
        assert(seq_lt(c@[i].id, c@[j].id));
        lemma_seq_lt_connected(c@[i].id, c@[j].id);
    }
}

/// Index stability: the record under an index depends on nothing but
/// the registry's content, so as long as no call changes the registry —
/// and every non-mutating operation's contract says the registry is
/// unchanged — the same index denotes the same record.
pub proof fn lemma_index_stability(c1: Config, c2: Config, i: int)
    requires
        c1@ == c2@,
        0 <= i < c1@.len(),
    ensures
        c1@[i] == c2@[i],
{
}

/// Delete idempotence: removing an id that the registry does not hold
/// returns nothing and leaves the registry as it was.
pub proof fn lemma_delete_idempotence(c: Config, id: Seq<char>)
    requires
        forall|k: int| 0 <= k < c@.len() ==> (#[trigger] c@[k].id) != id,
    ensures
        spec_lookup(c@, id) is None,
        spec_remove_id(c@, id) == c@,
{
    lemma_lookup_none(c@, id);
}

} // verus!
