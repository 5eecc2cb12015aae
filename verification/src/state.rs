//! The list store: an ordered sequence of entries and the scratch input
//! strings, with the index-addressed mutations the UI layer performs.
//!
//! Strings are modelled by their UTF-8 bytes (`vstd::utf8::encode_utf8` of
//! the character view), so the persistence codec and the store speak about
//! the same mathematical values.

use vstd::prelude::*;
use vstd::utf8::encode_utf8;

use crate::text::trimmed;
use crate::text::trimmed_string;

verus! {

/// The mathematical value of one entry: its description's UTF-8 bytes and
/// its two flags.
pub ghost struct EntryModel {
    pub description: Seq<u8>,
    pub completed: bool,
    pub editing: bool,
}

/// One clipped-link record: description text, a completed flag, and an
/// editing flag used while the description is being edited in place.
pub struct Entry {
    pub description: String,
    pub completed: bool,
    pub editing: bool,
}

impl View for Entry {
    type V = EntryModel;

    open spec fn view(&self) -> EntryModel {
        EntryModel {
            description: encode_utf8(self.description@),
            completed: self.completed,
            editing: self.editing,
        }
    }
}

/// An index-addressed operation was given an index with no entry under it.
pub enum StoreError {
    NotFound,
}

/// Which entries the UI displays: every entry, the ones still to do, or the
/// ones already completed.
#[derive(Clone, Copy, PartialEq, Eq, Structural, Debug)]
pub enum Filter {
    All,
    Active,
    Completed,
}

/// The display predicate of a filter over one entry.
pub open spec fn filter_spec(f: Filter, e: EntryModel) -> bool {
    match f {
        Filter::All => true,
        Filter::Active => !e.completed,
        Filter::Completed => e.completed,
    }
}

impl Filter {
    /// Whether this filter displays `e`.
    pub fn matches(&self, e: &Entry) -> (r: bool)
        ensures
            r == filter_spec(*self, e@),
    {
        match self {
            Filter::All => true,
            Filter::Active => !e.completed,
            Filter::Completed => e.completed,
        }
    }
}

/// Every entry is displayed under `All`, and is displayed under exactly one
/// of `Active` and `Completed`: the two partition any entry sequence.
pub proof fn lemma_filter_partition(e: EntryModel)
    ensures
        filter_spec(Filter::All, e),
        filter_spec(Filter::Active, e) <==> !filter_spec(Filter::Completed, e),
{
}

/// The number of completed entries in `s`.
pub open spec fn count_completed_spec(s: Seq<EntryModel>) -> int
    decreases s.len(),
{
    if s.len() == 0 {
        0
    } else {
        count_completed_spec(s.drop_last()) + if s.last().completed {
            1int
        } else {
            0int
        }
    }
}

/// When every entry is completed the count equals the length; when none is,
/// it is zero.
pub proof fn lemma_count_completed_uniform(s: Seq<EntryModel>)
    ensures
        (forall|i: int| 0 <= i < s.len() ==> s[i].completed) ==> count_completed_spec(s)
            == s.len(),
        (forall|i: int| 0 <= i < s.len() ==> !s[i].completed) ==> count_completed_spec(s) == 0,
    decreases s.len(),
{
    if s.len() > 0 {
        lemma_count_completed_uniform(s.drop_last());
        assert(forall|i: int| 0 <= i < s.drop_last().len() ==> s.drop_last()[i] == s[i]);
    }
}

/// The mathematical value of the whole store.
pub ghost struct StateModel {
    pub entries: Seq<EntryModel>,
    pub value: Seq<u8>,
    pub edit_value: Seq<u8>,
    pub filter: Filter,
}

/// At most one entry of `s` has its editing flag set.
pub open spec fn at_most_one_editing(s: Seq<EntryModel>) -> bool {
    forall|i: int, j: int|
        0 <= i < s.len() && 0 <= j < s.len() && s[i].editing && s[j].editing ==> i == j
}

/// Some entry of `s` has its editing flag set.
pub open spec fn has_editing(s: Seq<EntryModel>) -> bool {
    exists|i: int| 0 <= i < s.len() && s[i].editing
}

impl StateModel {
    /// The store's invariant: at most one entry is being edited at a time.
    pub open spec fn wf(self) -> bool {
        at_most_one_editing(self.entries)
    }
}

/// The list store: the entry sequence, the scratch input strings and the
/// current display filter.
pub struct State {
    pub entries: Vec<Entry>,
    pub value: String,
    pub edit_value: String,
    pub filter: Filter,
}

/// `e` with its completed flag flipped and everything else unchanged.
pub open spec fn toggled(e: EntryModel) -> EntryModel {
    EntryModel { completed: !e.completed, ..e }
}

/// `e` with its completed flag set to `t` and everything else unchanged.
pub open spec fn with_completed(t: bool, e: EntryModel) -> EntryModel {
    EntryModel { completed: t, ..e }
}

/// `e` with its editing flag set to `t` and everything else unchanged.
pub open spec fn with_editing(t: bool, e: EntryModel) -> EntryModel {
    EntryModel { editing: t, ..e }
}

/// The entry a committed edit leaves behind: the trimmed new description,
/// the editing flag cleared, the completed flag kept.
pub open spec fn committed(d: Seq<u8>, e: EntryModel) -> EntryModel {
    EntryModel { description: d, completed: e.completed, editing: false }
}

/// The entry models of a vector of entries, in order.
pub open spec fn views_of(v: Seq<Entry>) -> Seq<EntryModel> {
    v.map_values(|e: Entry| e@)
}

impl View for State {
    type V = StateModel;

    open spec fn view(&self) -> StateModel {
        StateModel {
            entries: views_of(self.entries@),
            value: encode_utf8(self.value@),
            edit_value: encode_utf8(self.edit_value@),
            filter: self.filter,
        }
    }
}

impl State {
    /// Flips the completed flag of the entry at `idx`; out-of-range indices
    /// are rejected rather than panicking, and leave the store unchanged.
    pub fn toggle(&mut self, idx: usize) -> (r: Result<(), StoreError>)
        ensures
            idx < old(self)@.entries.len() ==> {
                &&& r is Ok
                &&& final(self)@.entries == old(self)@.entries.update(
                    idx as int,
                    toggled(old(self)@.entries[idx as int]),
                )
            },
            idx >= old(self)@.entries.len() ==> r is Err && final(self)@.entries
                == old(self)@.entries,
            final(self)@.value == old(self)@.value,
            final(self)@.edit_value == old(self)@.edit_value,
            final(self)@.filter == old(self)@.filter,
            old(self)@.wf() ==> final(self)@.wf(),
    {
        if idx < self.entries.len() {
            let flipped = !self.entries[idx].completed;
            self.entries[idx].completed = flipped;
            assert(final(self)@.entries =~= old(self)@.entries.update(
                idx as int,
                toggled(old(self)@.entries[idx as int]),
            ));
            proof {
                if old(self)@.wf() {
                    assert forall|k: int, j: int|
                        0 <= k < self@.entries.len() && 0 <= j < self@.entries.len()
                            && self@.entries[k].editing && self@.entries[j].editing implies k
                        == j by {
                        assert(old(self)@.entries[k].editing);
                        assert(old(self)@.entries[j].editing);
                    }
                }
            }
            Ok(())
        } else {
            assert(final(self)@.entries =~= old(self)@.entries);
            Err(StoreError::NotFound)
        }
    }

    /// Deletes the entry at `idx`, shifting every later entry down by one
    /// position; out-of-range indices are rejected and change nothing.
    pub fn remove(&mut self, idx: usize) -> (r: Result<(), StoreError>)
        ensures
            idx < old(self)@.entries.len() ==> r is Ok && final(self)@.entries
                == old(self)@.entries.remove(idx as int),
            idx >= old(self)@.entries.len() ==> r is Err && final(self)@.entries
                == old(self)@.entries,
            final(self)@.value == old(self)@.value,
            final(self)@.edit_value == old(self)@.edit_value,
            final(self)@.filter == old(self)@.filter,
            old(self)@.wf() ==> final(self)@.wf(),
    {
        if idx < self.entries.len() {
            self.entries.remove(idx);
            assert(final(self)@.entries =~= old(self)@.entries.remove(idx as int));
            proof {
                if old(self)@.wf() {
                    assert forall|k: int, j: int|
                        0 <= k < self@.entries.len() && 0 <= j < self@.entries.len()
                            && self@.entries[k].editing && self@.entries[j].editing implies k
                        == j by {
                        let ok = if k < idx {
                            k
                        } else {
                            k + 1
                        };
                        let oj = if j < idx {
                            j
                        } else {
                            j + 1
                        };
                        assert(old(self)@.entries[ok].editing);
                        assert(old(self)@.entries[oj].editing);
                    }
                }
            }
            Ok(())
        } else {
            assert(final(self)@.entries =~= old(self)@.entries);
            Err(StoreError::NotFound)
        }
    }

    /// Replaces the add-input scratch string.
    pub fn set_input(&mut self, text: String)
        ensures
            final(self)@ == (StateModel { value: encode_utf8(text@), ..old(self)@ }),
    {
        self.value = text;
        assert(final(self)@.entries =~= old(self)@.entries);
    }

    /// Replaces the edit-input scratch string.
    pub fn set_edit_input(&mut self, text: String)
        ensures
            final(self)@ == (StateModel { edit_value: encode_utf8(text@), ..old(self)@ }),
    {
        self.edit_value = text;
        assert(final(self)@.entries =~= old(self)@.entries);
    }

    /// Replaces the display filter.
    pub fn set_filter(&mut self, f: Filter)
        ensures
            final(self)@ == (StateModel { filter: f, ..old(self)@ }),
    {
        self.filter = f;
        assert(final(self)@.entries =~= old(self)@.entries);
    }

    /// The number of entries, filtered or not.
    pub fn count_total(&self) -> (r: usize)
        ensures
            r == self@.entries.len(),
    {
        self.entries.len()
    }

    /// The number of completed entries over the full sequence.
    pub fn count_completed(&self) -> (r: usize)
        ensures
            r == count_completed_spec(self@.entries),
    {
        let ghost entries = self@.entries;
        let mut count: usize = 0;
        let mut i: usize = 0;
        while i < self.entries.len()
            invariant
                i <= self.entries.len(),
                entries == self@.entries,
                count == count_completed_spec(entries.subrange(0, i as int)),
                count <= i,
            decreases self.entries.len() - i,
        {
            proof {
                assert(entries.subrange(0, i + 1).drop_last() =~= entries.subrange(0, i as int));
                assert(entries.subrange(0, i + 1).last() == entries[i as int]);
            }
            if self.entries[i].completed {
                count = count + 1;
            }
            i = i + 1;
        }
        proof {
            assert(entries.subrange(0, entries.len() as int) =~= entries);
        }
        count
    }

    /// Sets the completed flag of every entry to `target`.
    pub fn toggle_all(&mut self, target: bool)
        ensures
            final(self)@.entries.len() == old(self)@.entries.len(),
            forall|j: int|
                0 <= j < old(self)@.entries.len() ==> final(self)@.entries[j] == with_completed(
                    target,
                    old(self)@.entries[j],
                ),
            final(self)@.value == old(self)@.value,
            final(self)@.edit_value == old(self)@.edit_value,
            final(self)@.filter == old(self)@.filter,
            old(self)@.wf() ==> final(self)@.wf(),
    {
        let ghost orig = self@.entries;
        let mut i: usize = 0;
        while i < self.entries.len()
            invariant
                i <= self.entries.len(),
                self.entries.len() == orig.len(),
                forall|j: int|
                    0 <= j < i ==> #[trigger] self@.entries[j] == with_completed(target, orig[j]),
                forall|j: int| i <= j < orig.len() ==> #[trigger] self@.entries[j] == orig[j],
                self.value == old(self).value,
                self.edit_value == old(self).edit_value,
                self.filter == old(self).filter,
            decreases self.entries.len() - i,
        {
            let ghost pre = self@.entries;
            self.entries[i].completed = target;
            proof {
                assert(self@.entries =~= pre.update(i as int, with_completed(target, pre[i as int])));
            }
            i = i + 1;
        }
    }

    /// Marks the entry at `idx` as the one being edited: clears every other
    /// entry's editing flag, sets entry `idx`'s, and seeds the edit scratch
    /// string with its description. Out-of-range indices change nothing.
    pub fn start_edit(&mut self, idx: usize) -> (r: Result<(), StoreError>)
        ensures
            idx < old(self)@.entries.len() ==> {
                &&& r is Ok
                &&& final(self)@.entries.len() == old(self)@.entries.len()
                &&& forall|j: int|
                    0 <= j < old(self)@.entries.len() ==> final(self)@.entries[j] == with_editing(
                        j == idx,
                        old(self)@.entries[j],
                    )
                &&& final(self)@.edit_value == old(self)@.entries[idx as int].description
                &&& final(self)@.wf()
            },
            idx >= old(self)@.entries.len() ==> r is Err && final(self)@ == old(self)@,
            final(self)@.value == old(self)@.value,
            final(self)@.filter == old(self)@.filter,
    {
        if idx >= self.entries.len() {
            assert(final(self)@.entries =~= old(self)@.entries);
            return Err(StoreError::NotFound);
        }
        let ghost orig = self@.entries;
        self.edit_value = self.entries[idx].description.clone();
        let mut i: usize = 0;
        while i < self.entries.len()
            invariant
                i <= self.entries.len(),
                self.entries.len() == orig.len(),
                idx < orig.len(),
                forall|j: int|
                    0 <= j < i ==> #[trigger] self@.entries[j] == with_editing(j == idx, orig[j]),
                forall|j: int| i <= j < orig.len() ==> #[trigger] self@.entries[j] == orig[j],
                self.value == old(self).value,
                encode_utf8(self.edit_value@) == orig[idx as int].description,
                self.filter == old(self).filter,
            decreases self.entries.len() - i,
        {
            let ghost pre = self@.entries;
            let flag = i == idx;
            self.entries[i].editing = flag;
            proof {
                assert(self@.entries =~= pre.update(
                    i as int,
                    with_editing(i == idx, pre[i as int]),
                ));
            }
            i = i + 1;
        }
        assert forall|k: int, j: int|
            0 <= k < self@.entries.len() && 0 <= j < self@.entries.len()
                && self@.entries[k].editing && self@.entries[j].editing implies k == j by {
            assert(self@.entries[k] == with_editing(k == idx, orig[k]));
            assert(self@.entries[j] == with_editing(j == idx, orig[j]));
        }
        Ok(())
    }

    /// Commits an edit of the entry at `idx`: the trimmed text becomes its
    /// description (even when empty), its editing flag is cleared, and the
    /// edit scratch string is emptied. Out-of-range indices change nothing.
    pub fn commit_edit(&mut self, idx: usize, text: &str) -> (r: Result<(), StoreError>)
        ensures
            idx < old(self)@.entries.len() ==> {
                &&& r is Ok
                &&& final(self)@.entries == old(self)@.entries.update(
                    idx as int,
                    committed(trimmed(encode_utf8(text@)), old(self)@.entries[idx as int]),
                )
                &&& final(self)@.edit_value == Seq::<u8>::empty()
            },
            idx >= old(self)@.entries.len() ==> r is Err && final(self)@ == old(self)@,
            final(self)@.value == old(self)@.value,
            final(self)@.filter == old(self)@.filter,
            old(self)@.wf() ==> final(self)@.wf(),
    {
        if idx >= self.entries.len() {
            assert(final(self)@.entries =~= old(self)@.entries);
            return Err(StoreError::NotFound);
        }
        let ghost orig = self@.entries;
        let d = trimmed_string(text);
        self.entries[idx].description = d;
        self.entries[idx].editing = false;
        self.edit_value = String::new();
        proof {
            assert(self@.entries =~= orig.update(
                idx as int,
                committed(trimmed(encode_utf8(text@)), orig[idx as int]),
            ));
            assert(encode_utf8(Seq::<char>::empty()) =~= Seq::<u8>::empty()) by {
                reveal_with_fuel(vstd::utf8::encode_utf8, 2);
            }
            if old(self)@.wf() {
                assert forall|k: int, j: int|
                    0 <= k < self@.entries.len() && 0 <= j < self@.entries.len()
                        && self@.entries[k].editing && self@.entries[j].editing implies k
                    == j by {
                    assert(old(self)@.entries[k].editing);
                    assert(old(self)@.entries[j].editing);
                }
            }
        }
        Ok(())
    }

    /// Removes every completed entry, preserving the relative order of the
    /// rest.
    pub fn clear_completed(&mut self)
        ensures
            final(self)@.entries == old(self)@.entries.filter(active_pred()),
            final(self)@.value == old(self)@.value,
            final(self)@.edit_value == old(self)@.edit_value,
            final(self)@.filter == old(self)@.filter,
            old(self)@.wf() ==> final(self)@.wf(),
    {
        let ghost orig = self@.entries;
        let ghost pred = active_pred();
        let ghost mut processed: int = 0;
        let mut i: usize = 0;
        while i < self.entries.len()
            invariant
                0 <= processed <= orig.len(),
                i == orig.subrange(0, processed).filter(pred).len(),
                self@.entries == orig.subrange(0, processed).filter(pred) + orig.subrange(
                    processed,
                    orig.len() as int,
                ),
                i <= self.entries.len(),
                pred == active_pred(),
                self.value == old(self).value,
                self.edit_value == old(self).edit_value,
                self.filter == old(self).filter,
            decreases orig.len() - processed,
        {
            proof {
                reveal(Seq::filter);
                orig.subrange(0, processed).lemma_filter_len(pred);
                assert(self@.entries[i as int] == orig[processed]);
                assert(orig.subrange(0, processed + 1).drop_last() =~= orig.subrange(
                    0,
                    processed,
                ));
                assert(orig.subrange(0, processed + 1).last() == orig[processed]);
            }
            if self.entries[i].completed {
                let ghost pre = self.entries@;
                self.entries.remove(i);
                proof {
                    reveal(Seq::filter);
                    assert(orig.subrange(0, processed + 1).filter(pred) == orig.subrange(
                        0,
                        processed,
                    ).filter(pred));
                    let kept = orig.subrange(0, processed).filter(pred);
                    let rest = orig.subrange(processed + 1, orig.len() as int);
                    assert(views_of(pre) == kept + orig.subrange(processed, orig.len() as int));
                    assert(self.entries@ == pre.remove(i as int));
                    assert(kept.len() == i);
                    assert(views_of(pre).len() == pre.len());
                    assert(views_of(pre).len() == kept.len() + orig.subrange(
                        processed,
                        orig.len() as int,
                    ).len());
                    assert(pre.remove(i as int).len() == pre.len() - 1);
                    assert(views_of(self.entries@).len() == pre.len() - 1);
                    assert((kept + rest).len() == kept.len() + rest.len());
                    assert forall|j: int| 0 <= j < views_of(self.entries@).len() implies views_of(
                        self.entries@,
                    )[j] == (kept + rest)[j] by {
                        if j < i {
                            assert(pre.remove(i as int)[j] == pre[j]);
                            assert(views_of(pre)[j] == kept[j]);
                        } else {
                            assert(pre.remove(i as int)[j] == pre[j + 1]);
                            assert(kept.len() == i);
                            assert(views_of(pre)[j + 1] == (kept + orig.subrange(
                                processed,
                                orig.len() as int,
                            ))[j + 1]);
                            assert(views_of(pre).len() == pre.len());
                            assert(pre.remove(i as int).len() == pre.len() - 1);
                            assert(views_of(self.entries@).len() == pre.len() - 1);
                            assert(j + 1 < pre.len());
                            assert(views_of(pre).len() == kept.len() + orig.subrange(
                                processed,
                                orig.len() as int,
                            ).len());
                            assert(kept.len() <= j + 1 < kept.len() + orig.subrange(
                                processed,
                                orig.len() as int,
                            ).len());
                            assert((kept + orig.subrange(processed, orig.len() as int))[j + 1]
                                == orig.subrange(processed, orig.len() as int)[j + 1 - i]);
                        }
                    }
                    assert(self@.entries =~= orig.subrange(0, processed + 1).filter(pred)
                        + orig.subrange(processed + 1, orig.len() as int));
                    processed = processed + 1;
                }
            } else {
                i = i + 1;
                proof {
                    reveal(Seq::filter);
                    assert(orig.subrange(0, processed + 1).filter(pred) == orig.subrange(
                        0,
                        processed,
                    ).filter(pred).push(orig[processed]));
                    assert(self@.entries =~= orig.subrange(0, processed + 1).filter(pred)
                        + orig.subrange(processed + 1, orig.len() as int));
                    processed = processed + 1;
                }
            }
        }
        proof {
            assert(orig.subrange(0, processed) =~= orig);
            assert(orig.subrange(processed, orig.len() as int)
                =~= Seq::<EntryModel>::empty());
            assert(final(self)@.entries =~= orig.filter(pred));
            if old(self)@.wf() {
                lemma_filter_keeps_single_editing(orig, pred);
            }
        }
    }
}

/// The predicate that keeps the entries still to do: those not completed.
pub open spec fn active_pred() -> spec_fn(EntryModel) -> bool {
    |e: EntryModel| !e.completed
}

/// Toggling the same index twice restores the original sequence, and a
/// single toggle changes no other entry and never the length.
pub proof fn lemma_toggle_twice(s: Seq<EntryModel>, i: int)
    requires
        0 <= i < s.len(),
    ensures
        s.update(i, toggled(s[i])).update(i, toggled(s.update(i, toggled(s[i]))[i])) == s,
        s.update(i, toggled(s[i])).len() == s.len(),
        forall|j: int| 0 <= j < s.len() && j != i ==> s.update(i, toggled(s[i]))[j] == s[j],
{
    assert(s.update(i, toggled(s[i])).update(i, toggled(s.update(i, toggled(s[i]))[i])) =~= s);
}

/// Removing index `i` shortens the sequence by exactly one and keeps every
/// other entry in its relative order: earlier entries stay in place, later
/// ones shift down by one.
pub proof fn lemma_remove_order(s: Seq<EntryModel>, i: int)
    requires
        0 <= i < s.len(),
    ensures
        s.remove(i).len() == s.len() - 1,
        forall|j: int| 0 <= j < i ==> #[trigger] s.remove(i)[j] == s[j],
        forall|j: int| i <= j < s.len() - 1 ==> #[trigger] s.remove(i)[j] == s[j + 1],
{
}

/// Every entry kept by `clear_completed` satisfies the keeping predicate, so
/// clearing twice yields the same sequence as clearing once, and afterwards
/// the completed count is zero.
pub proof fn lemma_clear_completed_idempotent(s: Seq<EntryModel>)
    ensures
        s.filter(active_pred()).filter(active_pred()) == s.filter(active_pred()),
        count_completed_spec(s.filter(active_pred())) == 0,
{
    let f = s.filter(active_pred());
    assert(forall|i: int| 0 <= i < f.len() ==> !(#[trigger] f[i]).completed) by {
        assert forall|i: int| 0 <= i < f.len() implies !(#[trigger] f[i]).completed by {
            s.lemma_filter_pred(active_pred(), i);
        }
    }
    lemma_filter_fixes_all_kept(f, active_pred());
    lemma_count_completed_uniform(f);
}

/// Filtering a sequence whose entries all satisfy the predicate returns the
/// sequence unchanged.
proof fn lemma_filter_fixes_all_kept(s: Seq<EntryModel>, pred: spec_fn(EntryModel) -> bool)
    requires
        forall|i: int| 0 <= i < s.len() ==> pred(#[trigger] s[i]),
    ensures
        s.filter(pred) == s,
    decreases s.len(),
{
    reveal(Seq::filter);
    if s.len() > 0 {
        let t = s.drop_last();
        assert(forall|i: int| 0 <= i < t.len() ==> pred(#[trigger] t[i]));
        lemma_filter_fixes_all_kept(t, pred);
        assert(s.filter(pred) =~= s);
    }
}

/// Setting every completed flag to `true` makes the completed count equal
/// the total count; setting every flag to `false` makes it zero.
pub proof fn lemma_toggle_all_count(s: Seq<EntryModel>, target: bool, r: Seq<EntryModel>)
    requires
        r.len() == s.len(),
        forall|j: int| 0 <= j < s.len() ==> r[j] == with_completed(target, #[trigger] s[j]),
    ensures
        target ==> count_completed_spec(r) == r.len(),
        !target ==> count_completed_spec(r) == 0,
{
    assert forall|j: int| 0 <= j < r.len() implies (#[trigger] r[j]).completed == target by {
        assert(r[j] == with_completed(target, s[j]));
    }
    lemma_count_completed_uniform(r);
}

/// Filtering a sequence with at most one editing entry leaves at most one
/// editing entry, and introduces none.
proof fn lemma_filter_keeps_single_editing(s: Seq<EntryModel>, pred: spec_fn(EntryModel) -> bool)
    requires
        at_most_one_editing(s),
    ensures
        at_most_one_editing(s.filter(pred)),
        has_editing(s.filter(pred)) ==> has_editing(s),
    decreases s.len(),
{
    reveal(Seq::filter);
    if s.len() == 0 {
    } else {
        let t = s.drop_last();
        assert(at_most_one_editing(t)) by {
            assert(forall|i: int| 0 <= i < t.len() ==> t[i] == s[i]);
        }
        lemma_filter_keeps_single_editing(t, pred);
        if pred(s.last()) {
            assert(s.filter(pred) == t.filter(pred).push(s.last()));
            let f = s.filter(pred);
            assert forall|i: int, j: int|
                0 <= i < f.len() && 0 <= j < f.len() && f[i].editing && f[j].editing implies i
                == j by {
                if i < f.len() - 1 && j < f.len() - 1 {
                    assert(f[i] == t.filter(pred)[i]);
                    assert(f[j] == t.filter(pred)[j]);
                } else if i != j {
                    let lo = if i < j { i } else { j };
                    assert(f[lo] == t.filter(pred)[lo]);
                    assert(has_editing(t.filter(pred)));
                    assert(has_editing(t));
                    let k = choose|k: int| 0 <= k < t.len() && t[k].editing;
                    assert(s[k].editing);
                    assert(s[s.len() - 1].editing);
                    assert(k == s.len() - 1);
                }
            }
            if has_editing(f) {
                let i = choose|i: int| 0 <= i < f.len() && f[i].editing;
                if i < f.len() - 1 {
                    assert(t.filter(pred)[i].editing);
                    assert(has_editing(t));
                    let k = choose|k: int| 0 <= k < t.len() && t[k].editing;
                    assert(s[k].editing);
                } else {
                    assert(s.last().editing);
                    assert(s[s.len() - 1].editing);
                }
                assert(has_editing(s));
            }
        } else {
            assert(s.filter(pred) == t.filter(pred));
            if has_editing(s.filter(pred)) {
                let k = choose|k: int| 0 <= k < t.len() && t[k].editing;
                assert(s[k].editing);
            }
        }
    }
}

} // verus!
