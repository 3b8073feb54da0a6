//! Pooling of gated note instances into one bin per note: the first stage
//! of the two-stage aggregation (a profile per note, then a verdict across
//! notes), which works per note bin and never per frame.

use crate::frame::NoteInstance;
use crate::note::NoteName;
use vstd::prelude::*;

verus! {

/// Every cents sample of the instances of `note`, instance after instance
/// in the order given, each instance's samples in their own order.
pub open spec fn pooled_cents<C>(instances: Seq<NoteInstance<C>>, note: NoteName) -> Seq<C>
    decreases instances.len(),
{
    if instances.len() == 0 {
        seq![]
    } else {
        let last = instances.last();
        pooled_cents(instances.drop_last(), note) + if last.note == note {
            last.cents_samples@
        } else {
            seq![]
        }
    }
}

/// The distinct notes of the instances, in order of first appearance.
pub open spec fn notes_in_order<C>(instances: Seq<NoteInstance<C>>) -> Seq<NoteName>
    decreases instances.len(),
{
    if instances.len() == 0 {
        seq![]
    } else {
        let earlier = notes_in_order(instances.drop_last());
        let note = instances.last().note;
        if earlier.contains(note) {
            earlier
        } else {
            earlier.push(note)
        }
    }
}

/// All the cents samples gathered for one note.
#[derive(Debug, Clone, PartialEq)]
pub struct NoteBin<C> {
    pub note: NoteName,
    pub cents: Vec<C>,
}

fn contains_note(notes: &Vec<NoteName>, note: NoteName) -> (found: bool)
    ensures
        found == notes@.contains(note),
{
    let mut i: usize = 0;
    while i < notes.len()
        invariant
            i <= notes@.len(),
            forall|j: int| 0 <= j < i ==> notes@[j] != note,
        decreases notes@.len() - i,
    {
        if notes[i] == note {
            assert(notes@[i as int] == note);
            return true;
        }
        i = i + 1;
    }
    false
}

fn distinct_notes<C>(instances: &[NoteInstance<C>]) -> (notes: Vec<NoteName>)
    ensures
        notes@ == notes_in_order(instances@),
{
    let mut notes: Vec<NoteName> = Vec::new();
    let mut i: usize = 0;
    while i < instances.len()
        invariant
            i <= instances@.len(),
            notes@ == notes_in_order(instances@.take(i as int)),
        decreases instances@.len() - i,
    {
        assert(instances@.take(i + 1).drop_last() =~= instances@.take(i as int));
        let note = instances[i].note;
        if !contains_note(&notes, note) {
            notes.push(note);
        }
        i = i + 1;
    }
    assert(instances@.take(instances@.len() as int) =~= instances@);
    notes
}

fn pool_note<C: Copy>(instances: &[NoteInstance<C>], note: NoteName) -> (cents: Vec<C>)
    ensures
        cents@ == pooled_cents(instances@, note),
{
    let mut cents: Vec<C> = Vec::new();
    let mut i: usize = 0;
    while i < instances.len()
        invariant
            i <= instances@.len(),
            cents@ == pooled_cents(instances@.take(i as int), note),
        decreases instances@.len() - i,
    {
        assert(instances@.take(i + 1).drop_last() =~= instances@.take(i as int));
        assert(instances@.take(i + 1).last() == instances@[i as int]);
        if instances[i].note == note {
            let samples = &instances[i].cents_samples;
            let ghost before = cents@;
            let mut j: usize = 0;
            while j < samples.len()
                invariant
                    j <= samples@.len(),
                    cents@ == before + samples@.take(j as int),
                decreases samples@.len() - j,
            {
                cents.push(samples[j]);
                j = j + 1;
                assert(cents@ =~= before + samples@.take(j as int));
            }
            assert(samples@.take(samples@.len() as int) =~= samples@);
        } else {
            assert(cents@ =~= cents@ + Seq::<C>::empty());
        }
        i = i + 1;
    }
    assert(instances@.take(instances@.len() as int) =~= instances@);
    cents
}

/// Pools the instances into one bin per note, in order of each note's first
/// appearance: a note played in several instances has all their samples in
/// its single bin.
pub fn bin_by_note<C: Copy>(instances: &[NoteInstance<C>]) -> (bins: Vec<NoteBin<C>>)
    ensures
        bins@.len() == notes_in_order(instances@).len(),
        forall|k: int|
            0 <= k < bins@.len() ==> (#[trigger] bins@[k]).note == notes_in_order(instances@)[k]
                && bins@[k].cents@ == pooled_cents(instances@, bins@[k].note),
{
    let notes = distinct_notes(instances);
    let mut bins: Vec<NoteBin<C>> = Vec::new();
    let mut k: usize = 0;
    while k < notes.len()
        invariant
            k <= notes@.len(),
            notes@ == notes_in_order(instances@),
            bins@.len() == k,
            forall|m: int|
                0 <= m < k ==> (#[trigger] bins@[m]).note == notes@[m] && bins@[m].cents@ == pooled_cents(
                    instances@,
                    bins@[m].note,
                ),
        decreases notes@.len() - k,
    {
        let note = notes[k];
        let cents = pool_note(instances, note);
        bins.push(NoteBin { note, cents });
        k = k + 1;
    }
    bins
}

/// Every cents sample of every instance, instance after instance.
pub open spec fn all_cents<C>(instances: Seq<NoteInstance<C>>) -> Seq<C>
    decreases instances.len(),
{
    if instances.len() == 0 {
        seq![]
    } else {
        all_cents(instances.drop_last()) + instances.last().cents_samples@
    }
}

/// Total size of the pools of the given notes.
pub open spec fn pooled_total<C>(instances: Seq<NoteInstance<C>>, notes: Seq<NoteName>) -> int
    decreases notes.len(),
{
    if notes.len() == 0 {
        0
    } else {
        pooled_total(instances, notes.drop_last()) + pooled_cents(instances, notes.last()).len()
    }
}

/// Each note gets exactly one bin: the bin notes are pairwise distinct, and
/// a note has a bin exactly when some instance is of that note, however
/// many instances of it there are.
pub proof fn lemma_one_bin_per_note<C>(instances: Seq<NoteInstance<C>>)
    ensures
        forall|i: int, j: int|
            0 <= i < j < notes_in_order(instances).len() ==> notes_in_order(instances)[i]
                != notes_in_order(instances)[j],
        forall|n: NoteName|
            notes_in_order(instances).contains(n) <==> exists|k: int|
                0 <= k < instances.len() && (#[trigger] instances[k]).note == n,
    decreases instances.len(),
{
    if instances.len() > 0 {
        let prefix = instances.drop_last();
        lemma_one_bin_per_note(prefix);
        let earlier = notes_in_order(prefix);
        let last = instances.last();
        assert forall|n: NoteName| notes_in_order(instances).contains(n) <==> exists|k: int|
            0 <= k < instances.len() && (#[trigger] instances[k]).note == n by {
            if notes_in_order(instances).contains(n) {
                if earlier.contains(n) {
                    let k = choose|k: int| 0 <= k < prefix.len() && (#[trigger] prefix[k]).note == n;
                    assert(instances[k] == prefix[k]);
                } else {
                    assert(n == last.note);
                    assert(instances[instances.len() - 1] == last);
                }
            }
            if exists|k: int| 0 <= k < instances.len() && (#[trigger] instances[k]).note == n {
                let k = choose|k: int| 0 <= k < instances.len() && (#[trigger] instances[k]).note == n;
                if k < prefix.len() {
                    assert(prefix[k] == instances[k]);
                    assert(earlier.contains(n));
                    if !earlier.contains(last.note) {
                        assert(earlier.push(last.note)[earlier.index_of(n)] == n);
                    }
                } else {
                    assert(instances[k] == last);
                    if !earlier.contains(last.note) {
                        assert(earlier.push(last.note)[earlier.len() as int] == n);
                    }
                }
            }
        }
    }
}

proof fn lemma_pooled_total_step<C>(instances: Seq<NoteInstance<C>>, notes: Seq<NoteName>)
    requires
        instances.len() > 0,
        forall|i: int, j: int| 0 <= i < j < notes.len() ==> notes[i] != notes[j],
    ensures
        pooled_total(instances, notes) == pooled_total(instances.drop_last(), notes) + if notes.contains(
            instances.last().note,
        ) {
            instances.last().cents_samples@.len() as int
        } else {
            0
        },
    decreases notes.len(),
{
    if notes.len() > 0 {
        let front = notes.drop_last();
        assert forall|i: int, j: int| 0 <= i < j < front.len() implies front[i] != front[j] by {
            assert(front[i] == notes[i] && front[j] == notes[j]);
        }
        lemma_pooled_total_step(instances, front);
        let x = instances.last().note;
        if notes.last() == x {
            assert(notes[notes.len() - 1] == x);
            assert(!front.contains(x)) by {
                if front.contains(x) {
                    let i = choose|i: int| 0 <= i < front.len() && front[i] == x;
                    assert(notes[i] == front[i]);
                }
            }
        } else {
            assert(notes.contains(x) == front.contains(x)) by {
                if notes.contains(x) {
                    let i = choose|i: int| 0 <= i < notes.len() && notes[i] == x;
                    assert(i != notes.len() - 1);
                    assert(front[i] == notes[i]);
                }
                if front.contains(x) {
                    let i = choose|i: int| 0 <= i < front.len() && front[i] == x;
                    assert(notes[i] == front[i]);
                }
            }
        }
    }
}

/// Pooling loses and duplicates nothing: the bins together hold exactly as
/// many samples as all the instances.
pub proof fn lemma_pooling_keeps_every_sample<C>(instances: Seq<NoteInstance<C>>)
    ensures
        pooled_total(instances, notes_in_order(instances)) == all_cents(instances).len(),
    decreases instances.len(),
{
    if instances.len() > 0 {
        let prefix = instances.drop_last();
        let last = instances.last();
        let earlier = notes_in_order(prefix);
        lemma_pooling_keeps_every_sample(prefix);
        lemma_one_bin_per_note(instances);
        lemma_one_bin_per_note(prefix);
        let notes = notes_in_order(instances);
        lemma_pooled_total_step(instances, notes);
        assert(notes.contains(last.note)) by {
            assert(instances[instances.len() - 1] == last);
        }
        if earlier.contains(last.note) {
            assert(notes == earlier);
        } else {
            assert(notes == earlier.push(last.note));
            assert(notes.drop_last() =~= earlier);
            // the new note has no earlier instance, so its pool in the prefix is empty
            lemma_pool_of_absent_note(prefix, last.note);
        }
    }
}

/// A note no instance is of has an empty pool.
proof fn lemma_pool_of_absent_note<C>(instances: Seq<NoteInstance<C>>, note: NoteName)
    requires
        !notes_in_order(instances).contains(note),
    ensures
        pooled_cents(instances, note).len() == 0,
    decreases instances.len(),
{
    if instances.len() > 0 {
        let prefix = instances.drop_last();
        lemma_one_bin_per_note(instances);
        lemma_one_bin_per_note(prefix);
        assert(instances.last().note != note) by {
            assert(instances[instances.len() - 1] == instances.last());
        }
        assert(!notes_in_order(prefix).contains(note)) by {
            if notes_in_order(prefix).contains(note) {
                let k = choose|k: int| 0 <= k < prefix.len() && (#[trigger] prefix[k]).note == note;
                assert(instances[k] == prefix[k]);
            }
        }
        lemma_pool_of_absent_note(prefix, note);
    }
}

/// Pooling splits over a history: the pool of a note over the instances of
/// `first` followed by those of `second` is its pool over `first` followed
/// by its pool over `second`. With a single instance, the pool is that
/// instance's samples if it is of the note and empty otherwise.
pub proof fn lemma_pooling_follows_the_instances<C>(
    first: Seq<NoteInstance<C>>,
    second: Seq<NoteInstance<C>>,
    note: NoteName,
)
    ensures
        pooled_cents(first + second, note) == pooled_cents(first, note) + pooled_cents(second, note),
        second.len() == 1 ==> pooled_cents(second, note) == if second[0].note == note {
            second[0].cents_samples@
        } else {
            Seq::<C>::empty()
        },
    decreases second.len(),
{
    if second.len() == 0 {
        assert(first + second =~= first);
        assert(pooled_cents(first, note) + Seq::<C>::empty() =~= pooled_cents(first, note));
    } else {
        let front = second.drop_last();
        lemma_pooling_follows_the_instances(first, front, note);
        assert((first + second).drop_last() =~= first + front);
        assert((first + second).last() == second.last());
        if second.len() == 1 {
            assert(front =~= Seq::<NoteInstance<C>>::empty());
            assert(second.last() == second[0]);
        }
        if second.last().note == note {
            assert(pooled_cents(first + second, note) =~= pooled_cents(first, note) + pooled_cents(second, note));
        } else {
            assert(pooled_cents(first + second, note) =~= pooled_cents(first, note) + pooled_cents(second, note));
        }
    }
}

/// Bins keep their places as instances arrive: the notes of a longer history
/// begin with the notes of any earlier part of it, in the same order.
pub proof fn lemma_bin_order_is_first_appearance<C>(first: Seq<NoteInstance<C>>, second: Seq<NoteInstance<C>>)
    ensures
        notes_in_order(first).len() <= notes_in_order(first + second).len(),
        notes_in_order(first + second).take(notes_in_order(first).len() as int) == notes_in_order(first),
    decreases second.len(),
{
    if second.len() == 0 {
        assert(first + second =~= first);
        assert(notes_in_order(first).take(notes_in_order(first).len() as int) =~= notes_in_order(first));
    } else {
        let front = second.drop_last();
        lemma_bin_order_is_first_appearance(first, front);
        assert((first + second).drop_last() =~= first + front);
        let k = notes_in_order(first).len() as int;
        let earlier = notes_in_order(first + front);
        assert(earlier.push((first + second).last().note).take(k) =~= earlier.take(k));
    }
}

} // verus!
