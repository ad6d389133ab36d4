//! The registry of sessions as a value: the entries from the most recently
//! used to the least, each an id with its slot. A slot holds the session
//! while it is idle and nothing while a task has borrowed it.

use crate::session::{Session, SessionView};
use vstd::prelude::*;

verus! {

/// What a slot holds: the session, or nothing while it is lent.
pub type SlotView = Option<SessionView>;

/// The entries of a registry, most recently used first.
pub type Entries = Seq<(Seq<char>, SlotView)>;

/// What a slot holds, as a value.
pub open spec fn slot_view(slot: Option<Session>) -> SlotView {
    match slot {
        Some(session) => Some(session@),
        None => None,
    }
}

/// Whether an id is registered.
pub open spec fn holds(entries: Entries, id: Seq<char>) -> bool {
    exists|i: int| 0 <= i < entries.len() && (#[trigger] entries[i]).0 == id
}

/// Where a registered id stands.
pub open spec fn index_of(entries: Entries, id: Seq<char>) -> int {
    choose|i: int| 0 <= i < entries.len() && (#[trigger] entries[i]).0 == id
}

/// The slot of a registered id.
pub open spec fn slot_of(entries: Entries, id: Seq<char>) -> SlotView {
    entries[index_of(entries, id)].1
}

/// Whether an id is registered with its session idle.
pub open spec fn idle(entries: Entries, id: Seq<char>) -> bool {
    holds(entries, id) && slot_of(entries, id) is Some
}

/// Whether an id is registered with its session lent.
pub open spec fn busy(entries: Entries, id: Seq<char>) -> bool {
    holds(entries, id) && slot_of(entries, id) is None
}

/// No id is registered twice, and the entries are no more than `cap`.
pub open spec fn entries_wf(entries: Entries, cap: nat) -> bool {
    &&& entries.len() <= cap
    &&& forall|i: int, j: int|
        0 <= i < j < entries.len() ==> (#[trigger] entries[i]).0 != (#[trigger] entries[j]).0
}

/// The entries after a registered id was used: it moves to the front, with
/// the given slot.
pub open spec fn promoted(entries: Entries, id: Seq<char>, slot: SlotView) -> Entries {
    seq![(id, slot)] + entries.remove(index_of(entries, id))
}

/// The entries after a new id came in at the front. A full registry loses
/// its least recently used entry.
pub open spec fn inserted(entries: Entries, cap: nat, id: Seq<char>, slot: SlotView) -> Entries {
    seq![(id, slot)] + (if entries.len() == cap {
        entries.drop_last()
    } else {
        entries
    })
}

/// The entries without a registered id.
pub open spec fn removed(entries: Entries, id: Seq<char>) -> Entries {
    entries.remove(index_of(entries, id))
}

/// Where an id stands is where it is found.
pub proof fn lemma_index_of(entries: Entries, cap: nat, id: Seq<char>, i: int)
    requires
        entries_wf(entries, cap),
        0 <= i < entries.len(),
        entries[i].0 == id,
    ensures
        holds(entries, id),
        index_of(entries, id) == i,
{
    let j = index_of(entries, id);
    if j < i {
        assert(entries[j].0 != entries[i].0);
    } else if i < j {
        assert(entries[i].0 != entries[j].0);
    }
}

/// After an id was used the registry is as large as before, the id stands
/// first with its new slot, and every other id keeps its slot.
pub proof fn lemma_promoted(entries: Entries, cap: nat, id: Seq<char>, slot: SlotView)
    requires
        entries_wf(entries, cap),
        holds(entries, id),
    ensures
        entries_wf(promoted(entries, id, slot), cap),
        promoted(entries, id, slot).len() == entries.len(),
        holds(promoted(entries, id, slot), id),
        slot_of(promoted(entries, id, slot), id) == slot,
        forall|other: Seq<char>|
            other != id ==> holds(promoted(entries, id, slot), other) == holds(entries, other),
        forall|other: Seq<char>|
            other != id && holds(entries, other) ==> slot_of(promoted(entries, id, slot), other)
                == slot_of(entries, other),
{
    let at = index_of(entries, id);
    let after = promoted(entries, id, slot);
    let rest = entries.remove(at);
    assert forall|i: int, j: int| 0 <= i < j < after.len() implies (#[trigger] after[i]).0 != (
    #[trigger] after[j]).0 by {
        let origin = |k: int| if k - 1 < at { k - 1 } else { k };
        if i == 0 {
            assert(after[j] == entries[origin(j)]);
            if origin(j) < at {
                assert(entries[origin(j)].0 != entries[at].0);
            } else {
                assert(entries[at].0 != entries[origin(j)].0);
            }
        } else {
            assert(after[i] == entries[origin(i)]);
            assert(after[j] == entries[origin(j)]);
            assert(entries[origin(i)].0 != entries[origin(j)].0);
        }
    }
    assert(after[0].0 == id);
    lemma_index_of(after, cap, id, 0);
    assert forall|other: Seq<char>| other != id implies holds(after, other) == holds(
        entries,
        other,
    ) && (holds(entries, other) ==> slot_of(after, other) == slot_of(entries, other)) by {
        if holds(entries, other) {
            let k = index_of(entries, other);
            let moved = if k < at { k + 1 } else { k };
            assert(after[moved] == entries[k]);
            lemma_index_of(after, cap, other, moved);
        }
        if holds(after, other) {
            let k = index_of(after, other);
            let origin = if k - 1 < at { k - 1 } else { k };
            assert(after[k] == entries[origin]);
            lemma_index_of(entries, cap, other, origin);
        }
    }
}

/// After a new id came in the registry is within its bounds, the id stands
/// first with its slot, and every other id that is still registered keeps
/// its slot.
pub proof fn lemma_inserted(entries: Entries, cap: nat, id: Seq<char>, slot: SlotView)
    requires
        entries_wf(entries, cap),
        !holds(entries, id),
        cap >= 1,
    ensures
        entries_wf(inserted(entries, cap, id, slot), cap),
        holds(inserted(entries, cap, id, slot), id),
        slot_of(inserted(entries, cap, id, slot), id) == slot,
        forall|other: Seq<char>|
            other != id && holds(inserted(entries, cap, id, slot), other) ==> holds(entries, other)
                && slot_of(inserted(entries, cap, id, slot), other) == slot_of(entries, other),
        entries.len() < cap ==> forall|other: Seq<char>|
            holds(entries, other) ==> holds(inserted(entries, cap, id, slot), other),
{
    let after = inserted(entries, cap, id, slot);
    assert forall|i: int, j: int| 0 <= i < j < after.len() implies (#[trigger] after[i]).0 != (
    #[trigger] after[j]).0 by {
        assert(after[j] == entries[j - 1]);
        if i == 0 {
            assert(entries[j - 1].0 != id);
        } else {
            assert(after[i] == entries[i - 1]);
        }
    }
    assert(after[0].0 == id);
    lemma_index_of(after, cap, id, 0);
    assert forall|other: Seq<char>| other != id && holds(after, other) implies holds(
        entries,
        other,
    ) && slot_of(after, other) == slot_of(entries, other) by {
        let k = index_of(after, other);
        assert(after[k] == entries[k - 1]);
        lemma_index_of(entries, cap, other, k - 1);
    }
    if entries.len() < cap {
        assert forall|other: Seq<char>| holds(entries, other) implies holds(after, other) by {
            let k = index_of(entries, other);
            assert(after[k + 1] == entries[k]);
        }
    }
}

/// After an id was dropped it is registered no more, and every other id
/// keeps its slot.
pub proof fn lemma_removed(entries: Entries, cap: nat, id: Seq<char>)
    requires
        entries_wf(entries, cap),
        holds(entries, id),
    ensures
        entries_wf(removed(entries, id), cap),
        removed(entries, id).len() == entries.len() - 1,
        !holds(removed(entries, id), id),
        forall|other: Seq<char>|
            other != id ==> holds(removed(entries, id), other) == holds(entries, other),
        forall|other: Seq<char>|
            other != id && holds(entries, other) ==> slot_of(removed(entries, id), other) == slot_of(
                entries,
                other,
            ),
{
    let at = index_of(entries, id);
    let after = removed(entries, id);
    assert forall|i: int, j: int| 0 <= i < j < after.len() implies (#[trigger] after[i]).0 != (
    #[trigger] after[j]).0 by {
        let oi = if i < at { i } else { i + 1 };
        let oj = if j < at { j } else { j + 1 };
        assert(after[i] == entries[oi]);
        assert(after[j] == entries[oj]);
        assert(entries[oi].0 != entries[oj].0);
    }
    if holds(after, id) {
        let k = index_of(after, id);
        let origin = if k < at { k } else { k + 1 };
        assert(after[k] == entries[origin]);
        lemma_index_of(entries, cap, id, origin);
    }
    assert forall|other: Seq<char>| other != id implies holds(after, other) == holds(
        entries,
        other,
    ) && (holds(entries, other) ==> slot_of(after, other) == slot_of(entries, other)) by {
        if holds(entries, other) {
            let k = index_of(entries, other);
            let moved = if k < at { k } else { k - 1 };
            assert(after[moved] == entries[k]);
            lemma_index_of(after, cap, other, moved);
        }
        if holds(after, other) {
            let k = index_of(after, other);
            let origin = if k < at { k } else { k + 1 };
            assert(after[k] == entries[origin]);
            lemma_index_of(entries, cap, other, origin);
        }
    }
}

} // verus!
