//! The store's cross-operation guarantees, stated and proved once over
//! the mathematical model that the operations' own contracts use.

use vstd::prelude::*;

use crate::codec::{bounded_entries, dec_manager, enc_manager, lemma_snapshot_round_trip};
use crate::profile::{entries_map, ids_distinct, ProfileView};

verus! {

/// Round-trip durability of a creation.  `s2` is the store as `create`
/// left it: well formed, and its mapping is the loaded mapping `m` with
/// the created profile `p` inserted under the minted identifier `id`.
/// Saving writes exactly `enc_manager(s2)`; once those bytes come back
/// unchanged, the reloaded store is `s2` itself, and it holds `p` under
/// `id`.
pub proof fn lemma_create_save_reload(
    s2: Seq<(u128, ProfileView)>,
    id: u128,
    p: ProfileView,
    m: Map<u128, ProfileView>,
)
    requires
        ids_distinct(s2),
        bounded_entries(s2),
        entries_map(s2) == m.insert(id, p),
    ensures
        dec_manager(enc_manager(s2)) == Option::Some(s2),
        entries_map(s2).contains_key(id),
        entries_map(s2)[id] == p,
{
    lemma_snapshot_round_trip(s2);
}

/// A freshly created, never-saved identifier can be deleted again at
/// once, purely in memory: inserting a profile under an identifier the
/// mapping did not hold and then removing that identifier gives back the
/// original mapping, with no save in between.
pub proof fn lemma_create_then_delete(m: Map<u128, ProfileView>, id: u128, p: ProfileView)
    requires
        !m.contains_key(id),
    ensures
        m.insert(id, p).remove(id) == m,
{
    assert(m.insert(id, p).remove(id) =~= m);
}

/// Two sequential creations leave both profiles retrievable
/// independently, whatever their contents, provided the two minted
/// identifiers differ.  That they do differ is a property of the random
/// identifier source, where collision is treated as negligible and not
/// defended against; it therefore stands here as a hypothesis.
pub proof fn lemma_two_creates_independent(
    m: Map<u128, ProfileView>,
    id1: u128,
    id2: u128,
    p1: ProfileView,
    p2: ProfileView,
)
    requires
        id1 != id2,
    ensures
        m.insert(id1, p1).insert(id2, p2).contains_key(id1),
        m.insert(id1, p1).insert(id2, p2).contains_key(id2),
        m.insert(id1, p1).insert(id2, p2)[id1] == p1,
        m.insert(id1, p1).insert(id2, p2)[id2] == p2,
{
}

} // verus!
