//! Ordered registry of active connections.
//!
//! One entry per live connection, addressed by position and serviced
//! strictly in arrival order. Entries are appended when a connection is
//! accepted and removed in batches at the end of a tick, walking the
//! recorded positions in descending order so that the positions still
//! to be removed stay valid.
//!
//! Each entry also carries a ghost history of the phases it has been
//! observed in, which is how the state-machine ordering invariant (an
//! entry seen `Flushing` has been `Writing` before) is stated and
//! proved.

use vstd::prelude::*;

verus! {

use crate::conn::{ConnState, Phase, ReadStep, StateView, WriteStep};
use crate::conn::{
    initial_state, lemma_read_phase_order, lemma_write_phase_order, phase_index, phase_of,
    read_step_spec, read_transition, wf_state, write_step_spec, write_transition, BUF_CAPACITY,
};
use vstd::pervasive::unreached;

/// One registry entry: a connection handle paired with its state, plus
/// the ghost record of the phases the entry has gone through.
pub struct Entry<C> {
    pub conn: C,
    pub state: ConnState,
    pub history: Ghost<Seq<Phase>>,
}

/// Model of an entry: the connection handle, the state model, and the
/// phases the entry has been observed in, oldest first.
#[verifier::ext_equal]
pub struct EntryView<C> {
    pub conn: C,
    pub state: StateView,
    pub history: Seq<Phase>,
}

impl<C> View for Entry<C> {
    type V = EntryView<C>;

    open spec fn view(&self) -> EntryView<C> {
        EntryView { conn: self.conn, state: self.state@, history: self.history@ }
    }
}

/// Two consecutively observed phases: the later one is the same phase
/// or the next one in servicing order.
pub open spec fn phase_step_ok(p: Phase, q: Phase) -> bool {
    phase_index(q) == phase_index(p) || phase_index(q) == phase_index(p) + 1
}

/// A phase history as the state machine can produce it: the first
/// observation is `Reading`, and each later observation keeps the
/// phase or advances it by exactly one.
pub open spec fn history_wf(h: Seq<Phase>) -> bool {
    &&& h.len() >= 1
    &&& h[0] == Phase::Reading
    &&& forall|i: int, j: int|
        0 <= i && j == i + 1 && j < h.len() ==> phase_step_ok(#[trigger] h[i], #[trigger] h[j])
}

/// An entry as the machine maintains it: a well-formed state, a
/// history the machine can produce, ending in the current phase.
pub open spec fn entry_inv<C>(e: EntryView<C>) -> bool {
    &&& wf_state(e.state)
    &&& history_wf(e.history)
    &&& e.history.last() == phase_of(e.state)
}

/// Every entry of the registry satisfies [`entry_inv`].
pub open spec fn registry_inv<C>(v: Seq<EntryView<C>>) -> bool {
    forall|i: int| 0 <= i < v.len() ==> entry_inv(#[trigger] v[i])
}

/// The entry a freshly accepted connection gets: initial state, and a
/// history holding the one phase observed so far.
pub open spec fn fresh_entry<C>(conn: C) -> EntryView<C> {
    EntryView { conn, state: initial_state(), history: seq![Phase::Reading] }
}

/// State-machine ordering: phases advance one at a time from
/// `Reading`, so a history that ends `Flushing` contains `Writing` at
/// some earlier point. An entry can only be seen awaiting its flush
/// after it has been seen sending the response.
pub proof fn lemma_flushing_preceded_by_writing(h: Seq<Phase>)
    requires
        history_wf(h),
        h.last() == Phase::Flushing,
    ensures
        h.contains(Phase::Writing),
    decreases h.len(),
{
    let n = h.len() as int;
    assert(h[n - 1] == Phase::Flushing);
    assert(n >= 2);
    assert(phase_step_ok(h[n - 2], h[n - 1]));
    if h[n - 2] == Phase::Writing {
        assert(h.contains(Phase::Writing)) by {
            assert(h[n - 2] == Phase::Writing);
        }
    } else {
        assert(h[n - 2] == Phase::Flushing);
        let g = h.drop_last();
        assert(g.len() >= 1 && g[0] == Phase::Reading);
        assert(forall|i: int, j: int|
            0 <= i && j == i + 1 && j < g.len() ==> phase_step_ok(#[trigger] g[i], #[trigger] g[j]));
        assert(g.last() == Phase::Flushing);
        lemma_flushing_preceded_by_writing(g);
        let i = choose|i: int| 0 <= i < g.len() && g[i] == Phase::Writing;
        assert(h.contains(Phase::Writing)) by {
            assert(h[i] == Phase::Writing);
        }
    }
}

/// The state-machine ordering invariant at registry level: the
/// registry never holds an entry awaiting its flush that was not seen
/// sending the response first. Every `Flushing` entry's history
/// contains `Writing`.
pub proof fn lemma_registry_flush_order<C>(v: Seq<EntryView<C>>)
    requires
        registry_inv(v),
    ensures
        forall|i: int|
            0 <= i < v.len() && phase_of(#[trigger] v[i].state) == Phase::Flushing
                ==> v[i].history.contains(Phase::Writing),
{
    assert forall|i: int|
        0 <= i < v.len() && phase_of(#[trigger] v[i].state) == Phase::Flushing
            implies v[i].history.contains(Phase::Writing) by {
        assert(entry_inv(v[i]));
        lemma_flushing_preceded_by_writing(v[i].history);
    }
}

/// The positions of a sequence of `usize` indices, as mathematical
/// integers.
pub open spec fn as_ints(s: Seq<usize>) -> Seq<int> {
    s.map_values(|u: usize| u as int)
}

/// Strictly ascending positions, as a tick's forward pass records them.
pub open spec fn strictly_increasing(idxs: Seq<int>) -> bool {
    forall|a: int, b: int| 0 <= a < b < idxs.len() ==> idxs[a] < idxs[b]
}

/// Every position lies below `len`.
pub open spec fn in_bounds(idxs: Seq<int>, len: int) -> bool {
    forall|k: int| 0 <= k < idxs.len() ==> 0 <= #[trigger] idxs[k] < len
}

/// How many of the positions in `idxs` lie strictly below `j`: the
/// amount a surviving element at position `j` moves down when the
/// positions in `idxs` are removed.
pub open spec fn rank_below(idxs: Seq<int>, j: int) -> int
    decreases idxs.len(),
{
    if idxs.len() == 0 {
        0
    } else {
        rank_below(idxs.drop_last(), j) + if idxs.last() < j {
            1int
        } else {
            0int
        }
    }
}

/// `s` with the positions `idxs` removed, walking `idxs` from its last
/// element down: exactly the order a batch removal must use so that
/// the positions still to be removed keep pointing at the recorded
/// elements.
pub open spec fn remove_desc<T>(s: Seq<T>, idxs: Seq<int>) -> Seq<T>
    decreases idxs.len(),
{
    if idxs.len() == 0 {
        s
    } else {
        remove_desc(s.remove(idxs.last()), idxs.drop_last())
    }
}

/// When every position in `idxs` lies below `j`, all of them count
/// into [`rank_below`].
proof fn lemma_rank_all_below(idxs: Seq<int>, j: int)
    requires
        forall|k: int| 0 <= k < idxs.len() ==> #[trigger] idxs[k] < j,
    ensures
        rank_below(idxs, j) == idxs.len(),
    decreases idxs.len(),
{
    if idxs.len() > 0 {
        lemma_rank_all_below(idxs.drop_last(), j);
    }
}

/// Batch removal in descending position order is sound: it drops
/// exactly the recorded positions. Every surviving element is
/// unchanged and sits at its old position minus the number of removed
/// positions below it, and nothing else appears.
pub proof fn lemma_remove_desc<T>(s: Seq<T>, idxs: Seq<int>)
    requires
        strictly_increasing(idxs),
        in_bounds(idxs, s.len() as int),
    ensures
        remove_desc(s, idxs).len() == s.len() - idxs.len(),
        forall|j: int|
            #![trigger rank_below(idxs, j)]
            0 <= j < s.len() && !idxs.contains(j) ==> remove_desc(s, idxs)[j - rank_below(idxs, j)]
                == s[j],
        forall|p: int|
            0 <= p < remove_desc(s, idxs).len() ==> s.contains(#[trigger] remove_desc(s, idxs)[p]),
    decreases idxs.len(),
{
    if idxs.len() == 0 {
        assert forall|p: int|
            0 <= p < remove_desc(s, idxs).len() implies s.contains(
            #[trigger] remove_desc(s, idxs)[p],
        ) by {
            assert(remove_desc(s, idxs)[p] == s[p]);
        }
    } else {
        let big = idxs.last();
        let rest = idxs.drop_last();
        let s1 = s.remove(big);
        s.remove_ensures(big);
        assert forall|k: int| 0 <= k < rest.len() implies 0 <= #[trigger] rest[k] < s1.len() by {
            assert(idxs[k] < idxs[idxs.len() - 1]);
        }
        lemma_remove_desc(s1, rest);
        let result = remove_desc(s, idxs);
        assert(result == remove_desc(s1, rest));
        assert forall|j: int|
            0 <= j < s.len() && !idxs.contains(j) implies result[j - rank_below(idxs, j)]
            == s[j] by {
            assert(!rest.contains(j)) by {
                if rest.contains(j) {
                    let k = choose|k: int| 0 <= k < rest.len() && rest[k] == j;
                    assert(idxs[k] == j);
                }
            }
            if j < big {
                assert(s1[j] == s[j]);
                assert(rank_below(idxs, j) == rank_below(rest, j));
                assert(result[j - rank_below(rest, j)] == s1[j]);
            } else {
                assert(j != big);
                assert(s1[j - 1] == s[j]);
                assert(!rest.contains(j - 1)) by {
                    if rest.contains(j - 1) {
                        let k = choose|k: int| 0 <= k < rest.len() && rest[k] == j - 1;
                        assert(idxs[k] < big);
                    }
                }
                assert forall|k: int| 0 <= k < rest.len() implies #[trigger] rest[k] < j - 1 by {
                    assert(idxs[k] < idxs[idxs.len() - 1]);
                }
                lemma_rank_all_below(rest, j - 1);
                assert forall|k: int| 0 <= k < idxs.len() implies #[trigger] idxs[k] < j by {
                    if k < idxs.len() - 1 {
                        assert(idxs[k] < idxs[idxs.len() - 1]);
                    }
                }
                lemma_rank_all_below(idxs, j);
                assert(result[(j - 1) - rank_below(rest, j - 1)] == s1[j - 1]);
                assert((j - 1) - rank_below(rest, j - 1) == j - rank_below(idxs, j));
            }
        }
        assert forall|p: int|
            0 <= p < remove_desc(s, idxs).len() implies s.contains(
            #[trigger] remove_desc(s, idxs)[p],
        ) by {
            assert(s1.contains(remove_desc(s1, rest)[p]));
            let j1 = choose|j1: int| 0 <= j1 < s1.len() && s1[j1] == remove_desc(s1, rest)[p];
            if j1 < big {
                assert(s[j1] == remove_desc(s, idxs)[p]);
            } else {
                assert(s1[j1] == s[j1 + 1]);
                assert(s[j1 + 1] == remove_desc(s, idxs)[p]);
            }
        }
    }
}

/// The ordered collection of active connections and their states.
pub struct Registry<C> {
    entries: Vec<Entry<C>>,
}

impl<C> View for Registry<C> {
    type V = Seq<EntryView<C>>;

    closed spec fn view(&self) -> Seq<EntryView<C>> {
        self.entries@.map_values(|e: Entry<C>| e@)
    }
}

/// The entry of `e` after one read step on bytes `data`: the state
/// follows the read transition and the history records the phase the
/// entry is now in.
pub open spec fn stepped_read<C>(e: EntryView<C>, data: Seq<u8>) -> EntryView<C> {
    let s1 = read_transition(e.state, data);
    EntryView { conn: e.conn, state: s1, history: e.history.push(phase_of(s1)) }
}

/// The entry of `e` after one write step of `n` bytes, likewise.
pub open spec fn stepped_write<C>(e: EntryView<C>, n: int) -> EntryView<C> {
    let s1 = write_transition(e.state, n);
    EntryView { conn: e.conn, state: s1, history: e.history.push(phase_of(s1)) }
}

impl<C> Registry<C> {
    /// An empty registry.
    pub fn new() -> (r: Self)
        ensures
            r@ == Seq::<EntryView<C>>::empty(),
            registry_inv(r@),
    {
        let r = Registry { entries: Vec::new() };
        proof {
            assert(r@ =~= Seq::<EntryView<C>>::empty());
        }
        r
    }

    /// How many connections are registered.
    pub fn len(&self) -> (n: usize)
        ensures
            n == self@.len(),
    {
        self.entries.len()
    }

    /// Appends a freshly accepted connection at the end of the
    /// registry (FIFO servicing order), in `Reading` state with cursor
    /// zero and a zeroed buffer.
    pub fn accept(&mut self, conn: C)
        requires
            registry_inv(old(self)@),
        ensures
            registry_inv(final(self)@),
            final(self)@ == old(self)@.push(fresh_entry(conn)),
    {
        let state = ConnState::initial();
        let ghost h: Seq<Phase> = seq![Phase::Reading];
        let entry = Entry { conn, state, history: Ghost(h) };
        self.entries.push(entry);
        proof {
            assert(self@ =~= old(self)@.push(fresh_entry(conn)));
            assert(entry_inv(fresh_entry(conn)));
            assert forall|i: int| 0 <= i < self@.len() implies entry_inv(#[trigger] self@[i]) by {
                if i < old(self)@.len() {
                    assert(entry_inv(old(self)@[i]));
                }
            }
        }
    }

    /// The phase entry `i` is currently in.
    pub fn phase_at(&self, i: usize) -> (p: Phase)
        requires
            i < self@.len(),
        ensures
            p == phase_of(self@[i as int].state),
    {
        self.entries[i].state.phase()
    }

    /// Shared access to the connection handle of entry `i`, for the
    /// caller to attempt I/O on.
    pub fn conn_at(&self, i: usize) -> (c: &C)
        requires
            i < self@.len(),
        ensures
            *c == self@[i as int].conn,
    {
        &self.entries[i].conn
    }

    /// How many bytes the receive buffer of entry `i` still has room
    /// for: the next read may hand over at most this many bytes.
    pub fn read_remaining(&self, i: usize) -> (n: usize)
        requires
            registry_inv(self@),
            i < self@.len(),
            self@[i as int].state is Reading,
        ensures
            n == BUF_CAPACITY - self@[i as int].state->Reading_cursor,
    {
        match &self.entries[i].state {
            ConnState::Reading { cursor, .. } => BUF_CAPACITY - *cursor,
            _ => unreached(),
        }
    }

    /// The response bytes entry `i` still has to send: a copy of the
    /// payload from the saved cursor to its end.
    pub fn pending_output(&self, i: usize) -> (v: Vec<u8>)
        requires
            registry_inv(self@),
            i < self@.len(),
            self@[i as int].state is Writing,
        ensures
            v@ == self@[i as int].state->Writing_payload.subrange(
                self@[i as int].state->Writing_cursor,
                self@[i as int].state->Writing_payload.len() as int,
            ),
    {
        match &self.entries[i].state {
            ConnState::Writing { payload, cursor } => {
                let mut v: Vec<u8> = Vec::new();
                let mut j: usize = *cursor;
                while j < payload.len()
                    invariant
                        *cursor <= j <= payload.len(),
                        v@ == payload@.subrange(*cursor as int, j as int),
                    decreases payload.len() - j,
                {
                    v.push(payload[j]);
                    j = j + 1;
                    proof {
                        assert(v@ =~= payload@.subrange(*cursor as int, j as int));
                    }
                }
                v
            },
            _ => unreached(),
        }
    }

    /// The read cursor of entry `i`: how many request bytes have been
    /// received so far.
    pub fn read_cursor_at(&self, i: usize) -> (n: usize)
        requires
            i < self@.len(),
            self@[i as int].state is Reading,
        ensures
            n == self@[i as int].state->Reading_cursor,
    {
        match &self.entries[i].state {
            ConnState::Reading { cursor, .. } => *cursor,
            _ => unreached(),
        }
    }

    /// The write cursor of entry `i`: how many response bytes have
    /// been accepted by the transport so far.
    pub fn write_cursor_at(&self, i: usize) -> (n: usize)
        requires
            i < self@.len(),
            self@[i as int].state is Writing,
        ensures
            n == self@[i as int].state->Writing_cursor,
    {
        match &self.entries[i].state {
            ConnState::Writing { cursor, .. } => *cursor,
            _ => unreached(),
        }
    }

    /// Feeds the bytes of one successful read to entry `i`. The report
    /// and the entry's new state follow the read transition, the
    /// entry's history records the phase it is now in, and every other
    /// entry is untouched.
    pub fn apply_read_at(&mut self, i: usize, data: &Vec<u8>) -> (r: ReadStep)
        requires
            registry_inv(old(self)@),
            i < old(self)@.len(),
            old(self)@[i as int].state is Reading,
        ensures
            registry_inv(final(self)@),
            r == read_step_spec(old(self)@[i as int].state, data@),
            final(self)@ == old(self)@.update(i as int, stepped_read(old(self)@[i as int], data@)),
    {
        proof {
            assert(entry_inv(old(self)@[i as int]));
        }
        let entry = &mut self.entries[i];
        let r = entry.state.apply_read(data);
        let ghost h: Seq<Phase> = entry.history@.push(phase_of(entry.state@));
        entry.history = Ghost(h);
        proof {
            lemma_read_phase_order(old(self)@[i as int].state, data@);
            assert(self@ =~= old(self)@.update(
                i as int,
                stepped_read(old(self)@[i as int], data@),
            ));
            assert(entry_inv(self@[i as int]));
            assert forall|k: int| 0 <= k < self@.len() implies entry_inv(#[trigger] self@[k]) by {
                assert(entry_inv(old(self)@[k]));
            }
        }
        r
    }

    /// Feeds the byte count of one successful write to entry `i`,
    /// likewise.
    pub fn apply_write_at(&mut self, i: usize, n: usize) -> (r: WriteStep)
        requires
            registry_inv(old(self)@),
            i < old(self)@.len(),
            old(self)@[i as int].state is Writing,
            n <= old(self)@[i as int].state->Writing_payload.len()
                - old(self)@[i as int].state->Writing_cursor,
        ensures
            registry_inv(final(self)@),
            r == write_step_spec(old(self)@[i as int].state, n as int),
            final(self)@ == old(self)@.update(i as int, stepped_write(old(self)@[i as int], n as int)),
    {
        proof {
            assert(entry_inv(old(self)@[i as int]));
        }
        let entry = &mut self.entries[i];
        let r = entry.state.apply_write(n);
        let ghost h: Seq<Phase> = entry.history@.push(phase_of(entry.state@));
        entry.history = Ghost(h);
        proof {
            lemma_write_phase_order(old(self)@[i as int].state, n as int);
            assert(self@ =~= old(self)@.update(
                i as int,
                stepped_write(old(self)@[i as int], n as int),
            ));
            assert(entry_inv(self@[i as int]));
            assert forall|k: int| 0 <= k < self@.len() implies entry_inv(#[trigger] self@[k]) by {
                assert(entry_inv(old(self)@[k]));
            }
        }
        r
    }

    /// Removes the entries at the recorded positions, which the tick's
    /// forward pass collected in ascending order, walking them in
    /// descending order so the positions still to be removed stay
    /// valid. Every surviving entry is unchanged and sits at its old
    /// position minus the number of removed positions below it.
    pub fn remove_completed(&mut self, completed: &Vec<usize>)
        requires
            registry_inv(old(self)@),
            strictly_increasing(as_ints(completed@)),
            in_bounds(as_ints(completed@), old(self)@.len() as int),
        ensures
            registry_inv(final(self)@),
            final(self)@ == remove_desc(old(self)@, as_ints(completed@)),
            final(self)@.len() == old(self)@.len() - completed@.len(),
            forall|j: int|
                #![trigger rank_below(as_ints(completed@), j)]
                0 <= j < old(self)@.len() && !as_ints(completed@).contains(j)
                    ==> final(self)@[j - rank_below(as_ints(completed@), j)] == old(self)@[j],
    {
        let ghost s0: Seq<EntryView<C>> = self@;
        let ghost ids: Seq<int> = as_ints(completed@);
        proof {
            assert(ids.take(completed@.len() as int) =~= ids);
        }
        let mut k: usize = completed.len();
        while k > 0
            invariant
                k <= completed@.len(),
                ids == as_ints(completed@),
                strictly_increasing(ids),
                in_bounds(ids, s0.len() as int),
                self@.len() == s0.len() - (completed@.len() - k),
                in_bounds(ids.take(k as int), self@.len() as int),
                remove_desc(s0, ids) == remove_desc(self@, ids.take(k as int)),
            decreases k,
        {
            let ghost v0: Seq<EntryView<C>> = self@;
            k = k - 1;
            let idx = completed[k];
            proof {
                assert(ids.take(k as int + 1)[k as int] == idx);
            }
            self.entries.remove(idx);
            proof {
                assert(self@ =~= v0.remove(idx as int));
                assert(ids.take(k as int + 1).drop_last() =~= ids.take(k as int));
                assert(remove_desc(v0, ids.take(k as int + 1)) == remove_desc(
                    self@,
                    ids.take(k as int),
                ));
                assert forall|t: int| 0 <= t < k implies 0 <= #[trigger] ids.take(k as int)[t]
                    < self@.len() by {
                    assert(ids[t] < ids[k as int]);
                }
            }
        }
        proof {
            assert(ids.take(0) =~= Seq::<int>::empty());
            assert(final(self)@ == remove_desc(s0, ids));
            lemma_remove_desc(s0, ids);
            assert forall|p: int| 0 <= p < self@.len() implies entry_inv(#[trigger] self@[p]) by {
                assert(s0.contains(self@[p]));
                let j = choose|j: int| 0 <= j < s0.len() && s0[j] == self@[p];
                assert(entry_inv(s0[j]));
            }
        }
    }
}

} // verus!
