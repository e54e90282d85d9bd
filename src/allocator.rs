use vstd::prelude::*;

verus! {

/// Issues connection identifiers: each call of `next` hands out the current
/// value and moves on by one, so identifiers are never reused.
pub struct Allocator {
    id: usize,
}

impl Allocator {
    /// The identifier that the next call of `next` hands out.
    pub closed spec fn next_id(&self) -> nat {
        self.id as nat
    }

    pub fn new(start: usize) -> (r: Self)
        ensures
            r.next_id() == start,
    {
        Allocator { id: start }
    }

    /// Whether another identifier can still be issued without leaving `usize`.
    pub fn can_issue(&self) -> (r: bool)
        ensures
            r == (self.next_id() < usize::MAX),
    {
        self.id < usize::MAX
    }

    pub fn next(&mut self) -> (id: usize)
        requires
            old(self).next_id() < usize::MAX,
        ensures
            id == old(self).next_id(),
            final(self).next_id() == old(self).next_id() + 1,
    {
        let id = self.id;
        self.id = self.id + 1;
        id
    }
}

/// Identifiers handed out by successive calls of `next` on one allocator are
/// pairwise distinct and strictly increasing: `states[i]` is the allocator
/// before the i-th call and `ids[i]` what that call returned.
pub proof fn lemma_issued_ids_increase(states: Seq<Allocator>, ids: Seq<usize>)
    requires
        states.len() == ids.len() + 1,
        forall|i: int|
            0 <= i < ids.len() ==> ids[i] == #[trigger] states[i].next_id() && states[i
                + 1].next_id() == states[i].next_id() + 1,
    ensures
        forall|i: int, j: int| 0 <= i < j < ids.len() ==> ids[i] < ids[j],
{
    assert forall|i: int, j: int| 0 <= i < j < ids.len() implies ids[i] < ids[j] by {
        lemma_ids_advance(states, ids, i, j);
    }
}

proof fn lemma_ids_advance(states: Seq<Allocator>, ids: Seq<usize>, i: int, j: int)
    requires
        states.len() == ids.len() + 1,
        forall|k: int|
            0 <= k < ids.len() ==> ids[k] == #[trigger] states[k].next_id() && states[k
                + 1].next_id() == states[k].next_id() + 1,
        0 <= i <= j < states.len(),
    ensures
        states[j].next_id() == states[i].next_id() + (j - i),
    decreases j - i,
{
    if i < j {
        lemma_ids_advance(states, ids, i, j - 1);
        assert(states[j - 1].next_id() + 1 == states[j].next_id());
    }
}

} // verus!
