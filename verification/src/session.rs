//! Session bookkeeping of gated note instances: a sliding window of recent
//! notes, and the whole record of a capture.

use crate::frame::NoteInstance;
use vstd::prelude::*;

verus! {

/// The earliest start a note may have and still count, for a note that
/// starts at `now`: `window` earlier, or the session start if that is sooner.
pub open spec fn cutoff(now: u128, window: u128) -> int {
    if now >= window {
        now - window
    } else {
        0
    }
}

/// How many notes at the front start before `cutoff`: eviction walks from
/// the oldest note and stops at the first one that is recent enough.
pub open spec fn stale_prefix_len<C>(notes: Seq<NoteInstance<C>>, cutoff: int) -> nat
    decreases notes.len(),
{
    if notes.len() == 0 || notes[0].start_nanos >= cutoff {
        0
    } else {
        1 + stale_prefix_len(notes.drop_first(), cutoff)
    }
}

/// The notes that remain once the stale ones at the front are dropped.
pub open spec fn evicted<C>(notes: Seq<NoteInstance<C>>, cutoff: int) -> Seq<NoteInstance<C>> {
    notes.skip(stale_prefix_len(notes, cutoff) as int)
}

/// The notes kept after taking in each of `incoming` in turn: each one
/// first evicts what is stale relative to its own start, then joins the back.
pub open spec fn rolled<C>(
    kept: Seq<NoteInstance<C>>,
    incoming: Seq<NoteInstance<C>>,
    window: u128,
) -> Seq<NoteInstance<C>>
    decreases incoming.len(),
{
    if incoming.len() == 0 {
        kept
    } else {
        let newest = incoming.last();
        evicted(rolled(kept, incoming.drop_last(), window), cutoff(newest.start_nanos, window)).push(
            newest,
        )
    }
}

proof fn lemma_stale_prefix_len<C>(notes: Seq<NoteInstance<C>>, cutoff: int, k: int)
    requires
        0 <= k <= notes.len(),
        forall|j: int| 0 <= j < k ==> (#[trigger] notes[j]).start_nanos < cutoff,
        k == notes.len() || notes[k].start_nanos >= cutoff,
    ensures
        stale_prefix_len(notes, cutoff) == k,
    decreases k,
{
    if k > 0 {
        let rest = notes.drop_first();
        assert forall|j: int| 0 <= j < k - 1 implies (#[trigger] rest[j]).start_nanos < cutoff by {
            assert(rest[j] == notes[j + 1]);
        }
        if k < notes.len() {
            assert(rest[k - 1] == notes[k]);
        }
        lemma_stale_prefix_len(rest, cutoff, k - 1);
    }
}

/// Note starts never decrease along the sequence.
pub open spec fn starts_in_order<C>(notes: Seq<NoteInstance<C>>) -> bool {
    forall|i: int, j: int|
        0 <= i <= j < notes.len() ==> (#[trigger] notes[i]).start_nanos <= (#[trigger] notes[j]).start_nanos
}

/// Eviction drops a run of leading notes that all start before the cutoff,
/// and stops at the first note that starts at or after it (or at the end).
pub proof fn lemma_stale_prefix_bounds<C>(notes: Seq<NoteInstance<C>>, cutoff: int)
    ensures
        stale_prefix_len(notes, cutoff) <= notes.len(),
        forall|j: int| 0 <= j < stale_prefix_len(notes, cutoff) ==> (#[trigger] notes[j]).start_nanos < cutoff,
        stale_prefix_len(notes, cutoff) < notes.len() ==> notes[stale_prefix_len(notes, cutoff) as int].start_nanos
            >= cutoff,
    decreases notes.len(),
{
    if notes.len() > 0 && notes[0].start_nanos < cutoff {
        let rest = notes.drop_first();
        lemma_stale_prefix_bounds(rest, cutoff);
        assert forall|j: int| 0 <= j < stale_prefix_len(notes, cutoff) implies (#[trigger] notes[j]).start_nanos
            < cutoff by {
            if j > 0 {
                assert(notes[j] == rest[j - 1]);
            }
        }
        if stale_prefix_len(notes, cutoff) < notes.len() {
            assert(notes[stale_prefix_len(notes, cutoff) as int] == rest[stale_prefix_len(rest, cutoff) as int]);
        }
    }
}

/// The rolling window holds exactly the recent notes. Whatever notes it took
/// in, it keeps a run of them from some point on, in order, ending with the
/// newest; and when note starts never decrease, the notes it dropped are
/// exactly those that start before the newest note's cutoff (its start less
/// the window), so every note kept starts at or after that cutoff.
pub proof fn lemma_rolling_window_keeps_recent_notes<C>(
    kept: Seq<NoteInstance<C>>,
    incoming: Seq<NoteInstance<C>>,
    window: u128,
) -> (dropped: int)
    ensures
        0 <= dropped <= kept.len() + incoming.len(),
        rolled(kept, incoming, window) == (kept + incoming).skip(dropped),
        incoming.len() > 0 && starts_in_order(kept + incoming) ==> {
            &&& forall|j: int|
                0 <= j < dropped ==> (#[trigger] (kept + incoming)[j]).start_nanos < cutoff(
                    incoming.last().start_nanos,
                    window,
                )
            &&& forall|j: int|
                dropped <= j < kept.len() + incoming.len() ==> (#[trigger] (kept + incoming)[j]).start_nanos
                    >= cutoff(incoming.last().start_nanos, window)
        },
    decreases incoming.len(),
{
    let all = kept + incoming;
    if incoming.len() == 0 {
        assert(all =~= kept);
        assert(all.skip(0) =~= kept);
        0
    } else {
        let front = incoming.drop_last();
        let newest = incoming.last();
        let all_front = kept + front;
        let m = lemma_rolling_window_keeps_recent_notes(kept, front, window);
        let prev = rolled(kept, front, window);
        let c = cutoff(newest.start_nanos, window);
        lemma_stale_prefix_bounds(prev, c);
        let k = stale_prefix_len(prev, c) as int;
        assert(all_front =~= all.drop_last());
        assert(rolled(kept, incoming, window) == prev.skip(k).push(newest));
        assert(prev.skip(k).push(newest) =~= all.skip(m + k));
        if starts_in_order(all) {
            assert(all[all.len() - 1] == newest);
            assert forall|j: int| 0 <= j < m + k implies (#[trigger] all[j]).start_nanos < c by {
                if j < m {
                    if front.len() > 0 {
                        let older = front.last();
                        assert(starts_in_order(all_front)) by {
                            assert forall|a: int, b: int| 0 <= a <= b < all_front.len() implies (
                            #[trigger] all_front[a]).start_nanos <= (#[trigger] all_front[b]).start_nanos by {
                                assert(all_front[a] == all[a] && all_front[b] == all[b]);
                            }
                        }
                        assert(all_front[j] == all[j]);
                        assert(all[all_front.len() - 1] == older);
                        assert(older.start_nanos <= newest.start_nanos);
                    } else {
                        // nothing was dropped before the first incoming note
                        assert(m == 0);
                    }
                } else {
                    assert(prev[j - m] == all[j]);
                }
            }
            assert forall|j: int| m + k <= j < all.len() implies (#[trigger] all[j]).start_nanos >= c by {
                if j < all.len() - 1 {
                    assert(prev[k] == all[m + k]);
                    assert(all[m + k].start_nanos <= all[j].start_nanos);
                }
            }
        }
        m + k
    }
}

/// Taking in one batch of notes and then another keeps the same notes as
/// taking in the two batches joined: the window depends only on the whole
/// history of notes, not on how it was split across calls.
pub proof fn lemma_batches_compose<C>(
    kept: Seq<NoteInstance<C>>,
    first: Seq<NoteInstance<C>>,
    second: Seq<NoteInstance<C>>,
    window: u128,
)
    ensures
        rolled(rolled(kept, first, window), second, window) == rolled(kept, first + second, window),
    decreases second.len(),
{
    if second.len() == 0 {
        assert(first + second =~= first);
    } else {
        lemma_batches_compose(kept, first, second.drop_last(), window);
        assert((first + second).drop_last() =~= first + second.drop_last());
        assert((first + second).last() == second.last());
    }
}

/// Whether a note starts at or after `cutoff`.
pub open spec fn starts_by<C>(cutoff: int) -> spec_fn(NoteInstance<C>) -> bool {
    |n: NoteInstance<C>| n.start_nanos >= cutoff
}

proof fn lemma_filter_of_split<C>(s: Seq<NoteInstance<C>>, cutoff: int, d: int)
    requires
        0 <= d <= s.len(),
        forall|j: int| 0 <= j < d ==> (#[trigger] s[j]).start_nanos < cutoff,
        forall|j: int| d <= j < s.len() ==> (#[trigger] s[j]).start_nanos >= cutoff,
    ensures
        s.filter(starts_by::<C>(cutoff)) == s.skip(d),
    decreases s.len(),
{
    reveal(Seq::filter);
    if s.len() == 0 {
        assert(s.skip(0) =~= s);
    } else {
        let front = s.drop_last();
        assert(s[s.len() - 1] == s.last());
        if d == s.len() {
            assert forall|j: int| 0 <= j < d - 1 implies (#[trigger] front[j]).start_nanos < cutoff by {
                assert(front[j] == s[j]);
            }
            lemma_filter_of_split(front, cutoff, d - 1);
            assert(s.skip(d) =~= front.skip(d - 1));
        } else {
            assert forall|j: int| 0 <= j < d implies (#[trigger] front[j]).start_nanos < cutoff by {
                assert(front[j] == s[j]);
            }
            assert forall|j: int| d <= j < front.len() implies (#[trigger] front[j]).start_nanos >= cutoff by {
                assert(front[j] == s[j]);
            }
            lemma_filter_of_split(front, cutoff, d);
            assert(s.skip(d) =~= front.skip(d).push(s.last()));
        }
    }
}

/// The rolling window over a whole session: a window that started empty
/// and has taken in, over any number of calls, notes whose starts never
/// decrease holds exactly those notes, in order, that start at or after the
/// newest note's start less the window (or the session start, if sooner).
pub proof fn lemma_rolling_window_holds_the_recent_history<C>(history: Seq<NoteInstance<C>>, window: u128)
    requires
        history.len() > 0,
        starts_in_order(history),
    ensures
        rolled(Seq::empty(), history, window) == history.filter(
            starts_by::<C>(cutoff(history.last().start_nanos, window)),
        ),
{
    let empty = Seq::<NoteInstance<C>>::empty();
    assert(empty + history =~= history);
    let d = lemma_rolling_window_keeps_recent_notes(empty, history, window);
    lemma_filter_of_split(history, cutoff(history.last().start_nanos, window), d);
}

/// A note starting at `start` is recent enough for a note starting at `now`
/// exactly when it starts no more than `window` before it:
/// `start + window >= now`, for every window length.
pub proof fn lemma_recent_means_within_the_window(now: u128, window: u128, start: u128)
    ensures
        start >= cutoff(now, window) <==> start + window >= now,
        cutoff(now, window) <= now,
{
}

/// The rolling window over a whole session, in plain arithmetic: after
/// taking in, over any number of calls, notes whose starts never decrease,
/// it holds exactly those notes, in order, with `start + window` at or
/// after the newest note's start. In particular every note kept satisfies
/// that, every note of the history that satisfies it is kept, and the
/// newest note is always kept.
pub proof fn lemma_rolling_window_keeps_what_lies_within_the_window<C>(
    history: Seq<NoteInstance<C>>,
    window: u128,
)
    requires
        history.len() > 0,
        starts_in_order(history),
    ensures
        rolled(Seq::empty(), history, window) == history.filter(
            |n: NoteInstance<C>| n.start_nanos + window >= history.last().start_nanos,
        ),
        forall|k: int|
            0 <= k < history.len() ==> (rolled(Seq::empty(), history, window).contains(#[trigger] history[k])
                <== history[k].start_nanos + window >= history.last().start_nanos),
        forall|k: int|
            0 <= k < rolled(Seq::empty(), history, window).len() ==> (#[trigger] rolled(
                Seq::empty(),
                history,
                window,
            )[k]).start_nanos + window >= history.last().start_nanos,
{
    let newest = history.last().start_nanos;
    lemma_rolling_window_holds_the_recent_history(history, window);
    let p1 = starts_by::<C>(cutoff(newest, window));
    let p2 = |n: NoteInstance<C>| n.start_nanos + window >= newest;
    assert(p1 =~= p2);
    let kept = rolled(Seq::empty(), history, window);
    let empty = Seq::<NoteInstance<C>>::empty();
    assert(empty + history =~= history);
    let d = lemma_rolling_window_keeps_recent_notes(empty, history, window);
    assert(kept == history.skip(d));
    assert forall|k: int| 0 <= k < history.len() && history[k].start_nanos + window >= newest implies kept.contains(
        #[trigger] history[k],
    ) by {
        if k < d {
            assert(history[k].start_nanos < cutoff(newest, window));
        } else {
            assert(kept[k - d] == history[k]);
        }
    }
    assert forall|k: int| 0 <= k < kept.len() implies (#[trigger] kept[k]).start_nanos + window >= newest by {
        assert(kept[k] == history[k + d]);
    }
}

/// Maintains a sliding window of recent note instances: a note older than
/// the window, measured back from the start of the newest note, is dropped.
pub struct RollingWindowSession<C> {
    window_nanos: u128,
    instances: Vec<NoteInstance<C>>,
}

impl<C> RollingWindowSession<C> {
    /// The window's length in nanoseconds.
    pub closed spec fn window_spec(&self) -> u128 {
        self.window_nanos
    }

    /// The notes currently kept, oldest first.
    pub closed spec fn kept(&self) -> Seq<NoteInstance<C>> {
        self.instances@
    }

    /// An empty session with a window of `window_nanos`.
    pub fn new(window_nanos: u128) -> (session: Self)
        ensures
            session.window_spec() == window_nanos,
            session.kept() == Seq::<NoteInstance<C>>::empty(),
    {
        RollingWindowSession { window_nanos, instances: Vec::new() }
    }

    /// Takes in newly gated notes, oldest first: each evicts the notes that
    /// have gone stale by its start, then joins the window.
    pub fn push_instances(&mut self, incoming: Vec<NoteInstance<C>>)
        ensures
            final(self).window_spec() == old(self).window_spec(),
            final(self).kept() == rolled(old(self).kept(), incoming@, old(self).window_spec()),
    {
        let mut incoming = incoming;
        let ghost all = incoming@;
        let n: usize = incoming.len();
        // Reverse the batch so that its oldest note is popped first.
        let mut reversed: Vec<NoteInstance<C>> = Vec::new();
        while incoming.len() > 0
            invariant
                n == all.len(),
                incoming@ == all.take(incoming@.len() as int),
                reversed@.len() + incoming@.len() == n,
                forall|j: int| 0 <= j < reversed@.len() ==> #[trigger] reversed@[j] == all[n - 1 - j],
            decreases incoming@.len(),
        {
            let ghost before = incoming@;
            let instance = incoming.pop().unwrap();
            reversed.push(instance);
            assert(incoming@ =~= all.take(incoming@.len() as int));
        }
        let mut taken: usize = 0;
        while reversed.len() > 0
            invariant
                n == all.len(),
                taken + reversed@.len() == n,
                forall|j: int| 0 <= j < reversed@.len() ==> #[trigger] reversed@[j] == all[n - 1 - j],
                self.window_nanos == old(self).window_nanos,
                self.instances@ == rolled(old(self).instances@, all.take(taken as int), self.window_nanos),
            decreases reversed@.len(),
        {
            let instance = reversed.pop().unwrap();
            assert(instance == all[taken as int]);
            self.evict_before(instance.start_nanos);
            self.instances.push(instance);
            taken = taken + 1;
            proof {
                let now = all.take(taken as int);
                assert(now.drop_last() =~= all.take(taken - 1));
                assert(now.last() == instance);
            }
        }
        assert(all.take(all.len() as int) =~= all);
    }

    /// The notes currently in the window, oldest first.
    pub fn instances(&self) -> (notes: &[NoteInstance<C>])
        ensures
            notes@ == self.kept(),
    {
        self.instances.as_slice()
    }

    fn evict_before(&mut self, now: u128)
        ensures
            final(self).window_nanos == old(self).window_nanos,
            final(self).instances@ == evicted(old(self).instances@, cutoff(now, old(self).window_nanos)),
    {
        let cut: u128 = if now >= self.window_nanos {
            now - self.window_nanos
        } else {
            0
        };
        let mut k: usize = 0;
        while k < self.instances.len() && self.instances[k].start_nanos < cut
            invariant
                k <= self.instances@.len(),
                forall|j: int| 0 <= j < k ==> (#[trigger] self.instances@[j]).start_nanos < cut,
            decreases self.instances@.len() - k,
        {
            k = k + 1;
        }
        proof {
            lemma_stale_prefix_len(self.instances@, cut as int, k as int);
        }
        let ghost before = self.instances@;
        let recent = self.instances.split_off(k);
        self.instances = recent;
        assert(self.instances@ =~= before.skip(k as int));
    }
}

/// Accumulates every gated note instance for the duration of a capture, for
/// a single full-passage report at the end.
pub struct CaptureSession<C> {
    instances: Vec<NoteInstance<C>>,
}

impl<C> CaptureSession<C> {
    /// The notes recorded so far, in order.
    pub closed spec fn recorded(&self) -> Seq<NoteInstance<C>> {
        self.instances@
    }

    /// A capture with nothing recorded.
    pub fn new() -> (session: Self)
        ensures
            session.recorded() == Seq::<NoteInstance<C>>::empty(),
    {
        CaptureSession { instances: Vec::new() }
    }

    /// Records newly gated notes, after everything recorded so far.
    pub fn record(&mut self, incoming: Vec<NoteInstance<C>>)
        ensures
            final(self).recorded() == old(self).recorded() + incoming@,
    {
        let mut incoming = incoming;
        self.instances.append(&mut incoming);
    }

    /// Ends the capture: every recorded note, followed by the one the
    /// pipeline's final flush closed out, if any.
    pub fn finish(self, last: Option<NoteInstance<C>>) -> (notes: Vec<NoteInstance<C>>)
        ensures
            notes@ == match last {
                Some(n) => self.recorded().push(n),
                None => self.recorded(),
            },
    {
        let mut instances = self.instances;
        if let Some(instance) = last {
            instances.push(instance);
        }
        instances
    }
}

} // verus!
