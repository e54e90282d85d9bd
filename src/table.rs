use vstd::prelude::*;
use crate::allocator::Allocator;
use crate::events::{error_step, step_after_error, IoErrorKind, LoopStep};

verus! {

/// Per-connection bookkeeping: tasks dispatched and not yet completed, and
/// whether the peer has half-closed.
#[derive(PartialEq, Eq, Structural, Clone, Copy, Debug)]
pub struct ConnStatus {
    pub inflight: usize,
    pub closed: bool,
}

/// Why the table refused an update.
#[derive(PartialEq, Eq, Structural, Clone, Copy, Debug)]
pub enum TableError {
    /// No live connection holds the token.
    UnknownToken,
    /// The connection's in-flight counter cannot count one more task.
    CounterFull,
    /// A completion arrived for a connection with no task in flight.
    NothingInFlight,
}

/// Tokens of the connections that one reclamation pass removes: closed by
/// the peer, with no task in flight.
pub open spec fn reclaimable(m: Map<usize, ConnStatus>) -> Set<usize> {
    Set::new(|t: usize| m.contains_key(t) && m[t].closed && m[t].inflight == 0)
}

/// The table after one reclamation pass.
pub open spec fn after_reclaim(m: Map<usize, ConnStatus>) -> Map<usize, ConnStatus> {
    m.remove_keys(reclaimable(m))
}

pub open spec fn tokens_ascending(s: Seq<(usize, ConnStatus)>) -> bool {
    forall|i: int, j: int| 0 <= i < j < s.len() ==> s[i].0 < s[j].0
}

pub open spec fn holds_token(s: Seq<(usize, ConnStatus)>, t: usize) -> bool {
    exists|i: int| 0 <= i < s.len() && s[i].0 == t
}

pub open spec fn entries_view(s: Seq<(usize, ConnStatus)>) -> Map<usize, ConnStatus> {
    Map::new(
        |t: usize| holds_token(s, t),
        |t: usize| s[choose|i: int| 0 <= i < s.len() && s[i].0 == t].1,
    )
}

proof fn lemma_entry(s: Seq<(usize, ConnStatus)>, i: int)
    requires
        tokens_ascending(s),
        0 <= i < s.len(),
    ensures
        entries_view(s).contains_key(s[i].0),
        entries_view(s)[s[i].0] == s[i].1,
{
    assert(0 <= i < s.len() && s[i].0 == s[i].0);
    let j = choose|j: int| 0 <= j < s.len() && s[j].0 == s[i].0;
    if j < i {
        assert(s[j].0 < s[i].0);
    } else if i < j {
        assert(s[i].0 < s[j].0);
    }
}

/// The entries of `s` make up exactly the map `m`.
proof fn lemma_view_is(s: Seq<(usize, ConnStatus)>, m: Map<usize, ConnStatus>)
    requires
        tokens_ascending(s),
        forall|i: int|
            0 <= i < s.len() ==> m.contains_key(#[trigger] s[i].0) && m[s[i].0] == s[i].1,
        forall|t: usize| m.contains_key(t) ==> holds_token(s, t),
    ensures
        entries_view(s) == m,
{
    assert forall|t: usize| entries_view(s).contains_key(t) implies m.contains_key(t)
        && entries_view(s)[t] == m[t] by {
        let i = choose|i: int| 0 <= i < s.len() && s[i].0 == t;
        lemma_entry(s, i);
    }
    assert(entries_view(s) =~= m);
}

proof fn lemma_view_push(s: Seq<(usize, ConnStatus)>, t: usize, c: ConnStatus)
    requires
        tokens_ascending(s),
        forall|i: int| 0 <= i < s.len() ==> #[trigger] s[i].0 < t,
    ensures
        tokens_ascending(s.push((t, c))),
        entries_view(s.push((t, c))) == entries_view(s).insert(t, c),
        !entries_view(s).contains_key(t),
{
    let s2 = s.push((t, c));
    let m = entries_view(s).insert(t, c);
    assert forall|i: int| 0 <= i < s2.len() implies m.contains_key(#[trigger] s2[i].0) && m[s2[i].0]
        == s2[i].1 by {
        if i < s.len() {
            lemma_entry(s, i);
        }
    }
    assert forall|k: usize| m.contains_key(k) implies holds_token(s2, k) by {
        if k == t {
            assert(s2[s.len() as int].0 == t);
        } else {
            let i = choose|i: int| 0 <= i < s.len() && s[i].0 == k;
            assert(s2[i].0 == k);
        }
    }
    lemma_view_is(s2, m);
}

proof fn lemma_view_update(s: Seq<(usize, ConnStatus)>, i: int, c: ConnStatus)
    requires
        tokens_ascending(s),
        0 <= i < s.len(),
    ensures
        tokens_ascending(s.update(i, (s[i].0, c))),
        entries_view(s.update(i, (s[i].0, c))) == entries_view(s).insert(s[i].0, c),
{
    let s2 = s.update(i, (s[i].0, c));
    let m = entries_view(s).insert(s[i].0, c);
    assert forall|j: int| 0 <= j < s2.len() implies m.contains_key(#[trigger] s2[j].0) && m[s2[j].0]
        == s2[j].1 by {
        lemma_entry(s, j);
        if j != i {
            if j < i {
                assert(s[j].0 < s[i].0);
            } else {
                assert(s[i].0 < s[j].0);
            }
        }
    }
    assert forall|k: usize| m.contains_key(k) implies holds_token(s2, k) by {
        if k == s[i].0 {
            assert(s2[i].0 == k);
        } else {
            let j = choose|j: int| 0 <= j < s.len() && s[j].0 == k;
            assert(s2[j].0 == k);
        }
    }
    lemma_view_is(s2, m);
}

/// The live connections of the reactor, keyed by token, with their
/// in-flight counters and half-close flags. Tokens come from an allocator
/// owned by the table, so a token is never issued twice.
pub struct ConnectionTable {
    allocator: Allocator,
    entries: Vec<(usize, ConnStatus)>,
}

impl ConnectionTable {
    /// Live connections by token. A token absent from the map has no
    /// connection and no work in flight.
    pub closed spec fn view(&self) -> Map<usize, ConnStatus> {
        entries_view(self.entries@)
    }

    /// The token that the next accepted connection receives.
    pub closed spec fn next_token(&self) -> nat {
        self.allocator.next_id()
    }

    /// Well-formedness: entries are kept in ascending token order, and every
    /// live token is below the next one to be issued.
    pub closed spec fn wf(&self) -> bool {
        &&& tokens_ascending(self.entries@)
        &&& forall|i: int|
            0 <= i < self.entries@.len() ==> (#[trigger] self.entries@[i]).0
                < self.allocator.next_id()
    }

    /// Every live token lies below the next one to be issued.
    pub proof fn lemma_live_below_next(&self, t: usize)
        requires
            self.wf(),
            self@.contains_key(t),
        ensures
            t < self.next_token(),
    {
        let i = choose|i: int| 0 <= i < self.entries@.len() && self.entries@[i].0 == t;
        assert(self.entries@[i].0 < self.allocator.next_id());
    }

    pub fn new(first_token: usize) -> (r: Self)
        ensures
            r.wf(),
            r@ == Map::<usize, ConnStatus>::empty(),
            r.next_token() == first_token,
    {
        let r = ConnectionTable { allocator: Allocator::new(first_token), entries: Vec::new() };
        assert(r@ =~= Map::<usize, ConnStatus>::empty());
        r
    }

    /// Whether a further connection can still be registered.
    pub fn can_register(&self) -> (r: bool)
        ensures
            r == (self.next_token() < usize::MAX),
    {
        self.allocator.can_issue()
    }

    /// Registers a newly accepted connection under a fresh token: open, with
    /// no work in flight.
    pub fn register(&mut self) -> (t: usize)
        requires
            old(self).wf(),
            old(self).next_token() < usize::MAX,
        ensures
            final(self).wf(),
            t == old(self).next_token(),
            final(self).next_token() == old(self).next_token() + 1,
            !old(self)@.contains_key(t),
            final(self)@ == old(self)@.insert(t, ConnStatus { inflight: 0, closed: false }),
    {
        let t = self.allocator.next();
        let c = ConnStatus { inflight: 0, closed: false };
        proof {
            lemma_view_push(self.entries@, t, c);
        }
        self.entries.push((t, c));
        t
    }

    /// One step of the accept loop. An accepted connection is registered and
    /// the loop goes on; an error decides the step as `step_after_error` does
    /// and leaves the table as it was.
    pub fn on_accept(&mut self, accepted: Result<(), IoErrorKind>) -> (r: (LoopStep, Option<usize>))
        requires
            old(self).wf(),
            accepted is Ok ==> old(self).next_token() < usize::MAX,
        ensures
            final(self).wf(),
            match accepted {
                Ok(_) => {
                    &&& r.0 == LoopStep::Continue
                    &&& r.1 == Some(old(self).next_token() as usize)
                    &&& !old(self)@.contains_key(old(self).next_token() as usize)
                    &&& final(self).next_token() == old(self).next_token() + 1
                    &&& final(self)@ == old(self)@.insert(
                        old(self).next_token() as usize,
                        ConnStatus { inflight: 0, closed: false },
                    )
                },
                Err(kind) => {
                    &&& r.0 == error_step(kind)
                    &&& r.1 is None
                    &&& final(self)@ == old(self)@
                    &&& final(self).next_token() == old(self).next_token()
                },
            },
    {
        match accepted {
            Ok(_) => {
                let t = self.register();
                (LoopStep::Continue, Some(t))
            },
            Err(kind) => (step_after_error(kind), None),
        }
    }

    /// Position of the entry holding `t`, if any.
    fn find(&self, t: usize) -> (r: Option<usize>)
        requires
            self.wf(),
        ensures
            match r {
                Some(i) => i < self.entries@.len() && self.entries@[i as int].0 == t,
                None => !self@.contains_key(t),
            },
    {
        let mut i: usize = 0;
        while i < self.entries.len()
            invariant
                0 <= i <= self.entries@.len(),
                forall|j: int| 0 <= j < i ==> self.entries@[j].0 != t,
            decreases self.entries@.len() - i,
        {
            if self.entries[i].0 == t {
                return Some(i);
            }
            i = i + 1;
        }
        None
    }

    /// Whether a live connection holds `t`.
    pub fn contains(&self, t: usize) -> (r: bool)
        requires
            self.wf(),
        ensures
            r == self@.contains_key(t),
    {
        match self.find(t) {
            Some(i) => {
                proof {
                    lemma_entry(self.entries@, i as int);
                }
                true
            },
            None => false,
        }
    }

    /// Records that the bytes of one read drain of `t` were handed to the
    /// worker pool: one more task in flight, and the connection half-closed
    /// if the drain saw the peer's end of stream.
    pub fn dispatch(&mut self, t: usize, eof: bool) -> (r: Result<(), TableError>)
        requires
            old(self).wf(),
        ensures
            final(self).wf(),
            final(self).next_token() == old(self).next_token(),
            !old(self)@.contains_key(t) ==> r == Err::<(), TableError>(TableError::UnknownToken),
            old(self)@.contains_key(t) && old(self)@[t].inflight == usize::MAX ==> r == Err::<
                (),
                TableError,
            >(TableError::CounterFull),
            old(self)@.contains_key(t) && old(self)@[t].inflight < usize::MAX ==> r is Ok,
            r is Ok ==> final(self)@ == old(self)@.insert(
                t,
                ConnStatus {
                    inflight: (old(self)@[t].inflight + 1) as usize,
                    closed: old(self)@[t].closed || eof,
                },
            ),
            r is Err ==> final(self)@ == old(self)@,
    {
        match self.find(t) {
            None => Err(TableError::UnknownToken),
            Some(i) => {
                let cur = self.entries[i].1;
                proof {
                    lemma_entry(self.entries@, i as int);
                }
                if cur.inflight == usize::MAX {
                    return Err(TableError::CounterFull);
                }
                let c = ConnStatus { inflight: cur.inflight + 1, closed: cur.closed || eof };
                proof {
                    lemma_view_update(self.entries@, i as int, c);
                }
                self.entries.set(i, (t, c));
                Ok(())
            },
        }
    }

    /// Records that one task of `t` completed and its response was handed
    /// back: one task fewer in flight.
    pub fn complete(&mut self, t: usize) -> (r: Result<(), TableError>)
        requires
            old(self).wf(),
        ensures
            final(self).wf(),
            final(self).next_token() == old(self).next_token(),
            !old(self)@.contains_key(t) ==> r == Err::<(), TableError>(TableError::UnknownToken),
            old(self)@.contains_key(t) && old(self)@[t].inflight == 0 ==> r == Err::<
                (),
                TableError,
            >(TableError::NothingInFlight),
            old(self)@.contains_key(t) && old(self)@[t].inflight > 0 ==> r is Ok,
            r is Ok ==> final(self)@ == old(self)@.insert(
                t,
                ConnStatus {
                    inflight: (old(self)@[t].inflight - 1) as usize,
                    closed: old(self)@[t].closed,
                },
            ),
            r is Err ==> final(self)@ == old(self)@,
    {
        match self.find(t) {
            None => Err(TableError::UnknownToken),
            Some(i) => {
                let cur = self.entries[i].1;
                proof {
                    lemma_entry(self.entries@, i as int);
                }
                if cur.inflight == 0 {
                    return Err(TableError::NothingInFlight);
                }
                let c = ConnStatus { inflight: cur.inflight - 1, closed: cur.closed };
                proof {
                    lemma_view_update(self.entries@, i as int, c);
                }
                self.entries.set(i, (t, c));
                Ok(())
            },
        }
    }

    /// Removes every connection that the peer has closed and that has no
    /// task in flight, and returns their tokens in ascending order. Every
    /// other connection stays as it was.
    pub fn reclaim(&mut self) -> (gone: Vec<usize>)
        requires
            old(self).wf(),
        ensures
            final(self).wf(),
            final(self).next_token() == old(self).next_token(),
            final(self)@ == after_reclaim(old(self)@),
            gone@.to_set() == reclaimable(old(self)@),
            forall|i: int, j: int| 0 <= i < j < gone@.len() ==> gone@[i] < gone@[j],
    {
        let ghost s = self.entries@;
        let ghost m = self@;
        let ghost dead = reclaimable(m);
        let mut kept: Vec<(usize, ConnStatus)> = Vec::new();
        let mut gone: Vec<usize> = Vec::new();
        let mut i: usize = 0;
        proof {
            assert(entries_view(s.subrange(0, 0)) =~= Map::<usize, ConnStatus>::empty());
            assert(entries_view(kept@) =~= Map::<usize, ConnStatus>::empty());
            assert(gone@.to_set() =~= Set::<usize>::empty());
        }
        while i < self.entries.len()
            invariant
                self.entries@ == s,
                self.wf(),
                m == entries_view(s),
                dead == reclaimable(m),
                0 <= i <= s.len(),
                tokens_ascending(kept@),
                forall|j: int, k: int|
                    0 <= j < kept@.len() && i <= k < s.len() ==> kept@[j].0 < s[k].0,
                forall|j: int| 0 <= j < kept@.len() ==> #[trigger] kept@[j].0 < self.next_token(),
                entries_view(kept@) == entries_view(s.subrange(0, i as int)).remove_keys(dead),
                forall|j: int, k: int| 0 <= j < k < gone@.len() ==> gone@[j] < gone@[k],
                forall|j: int, k: int|
                    0 <= j < gone@.len() && i <= k < s.len() ==> gone@[j] < s[k].0,
                gone@.to_set() == entries_view(s.subrange(0, i as int)).dom().intersect(dead),
            decreases s.len() - i,
        {
            let e = self.entries[i];
            proof {
                lemma_entry(s, i as int);
                let sub = s.subrange(0, i as int);
                assert(s.subrange(0, i + 1) =~= sub.push(e));
                assert forall|j: int| 0 <= j < sub.len() implies #[trigger] sub[j].0 < e.0 by {
                    assert(s[j].0 < s[i as int].0);
                }
                lemma_view_push(sub, e.0, e.1);
            }
            if e.1.closed && e.1.inflight == 0 {
                proof {
                    lemma_push_to_set(gone@, e.0);
                    let sub = s.subrange(0, i as int);
                    assert(entries_view(sub).insert(e.0, e.1).remove_keys(dead) =~= entries_view(
                        sub,
                    ).remove_keys(dead));
                    assert(entries_view(sub).insert(e.0, e.1).dom().intersect(dead)
                        =~= entries_view(sub).dom().intersect(dead).insert(e.0));
                }
                gone.push(e.0);
            } else {
                proof {
                    lemma_view_push(kept@, e.0, e.1);
                    let sub = s.subrange(0, i as int);
                    assert(entries_view(sub).insert(e.0, e.1).remove_keys(dead) =~= entries_view(
                        sub,
                    ).remove_keys(dead).insert(e.0, e.1));
                    assert(entries_view(sub).insert(e.0, e.1).dom().intersect(dead)
                        =~= entries_view(sub).dom().intersect(dead));
                }
                kept.push(e);
            }
            i = i + 1;
        }
        proof {
            assert(s.subrange(0, s.len() as int) =~= s);
            assert(m.dom().intersect(dead) =~= dead);
        }
        self.entries = kept;
        gone
    }
}

/// A connection with work in flight is never removed by a reclamation pass,
/// whether or not its peer has closed: it stays with its status unchanged.
pub proof fn lemma_busy_connection_kept(m: Map<usize, ConnStatus>, t: usize)
    requires
        m.contains_key(t),
        m[t].inflight > 0,
    ensures
        !reclaimable(m).contains(t),
        after_reclaim(m).contains_key(t),
        after_reclaim(m)[t] == m[t],
{
}

/// A connection whose peer has closed and whose dispatched tasks have all
/// completed is removed by the next reclamation pass, which reports its
/// token.
pub proof fn lemma_idle_closed_connection_reclaimed(m: Map<usize, ConnStatus>, t: usize)
    requires
        m.contains_key(t),
        m[t].closed,
        m[t].inflight == 0,
    ensures
        reclaimable(m).contains(t),
        !after_reclaim(m).contains_key(t),
{
}

proof fn lemma_push_to_set(s: Seq<usize>, x: usize)
    ensures
        s.push(x).to_set() == s.to_set().insert(x),
{
    let s2 = s.push(x);
    assert forall|a: usize| s2.contains(a) <==> s.contains(a) || a == x by {
        if s.contains(a) {
            let i = choose|i: int| 0 <= i < s.len() && s[i] == a;
            assert(s2[i] == a);
        }
        if a == x {
            assert(s2[s.len() as int] == a);
        }
        if s2.contains(a) && a != x {
            let i = choose|i: int| 0 <= i < s2.len() && s2[i] == a;
            assert(s[i] == a);
        }
    }
    assert(s2.to_set() =~= s.to_set().insert(x));
}

} // verus!
