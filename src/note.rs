use vstd::prelude::*;

use crate::text::{
    compare_text, lemma_text_lt_asymmetric, lemma_text_lt_irreflexive, lemma_text_lt_total,
    lemma_text_lt_transitive, text_lt,
};
use crate::timestamp::{now, ts_lt, Timestamp};

verus! {

/// A timestamped text entry of a project.
#[derive(Debug, Clone, PartialEq, Eq, PartialOrd, Ord, Hash)]
pub struct Note {
    pub time_stamp: Timestamp,
    pub value: String,
}

/// What a note is: its instant and its text.
pub ghost struct NoteView {
    pub time_stamp: Timestamp,
    pub value: Seq<char>,
}

impl View for Note {
    type V = NoteView;

    open spec fn view(&self) -> NoteView {
        NoteView { time_stamp: self.time_stamp, value: self.value@ }
    }
}

/// Notes are ordered by instant, then by text.
pub open spec fn note_lt(a: NoteView, b: NoteView) -> bool {
    ts_lt(a.time_stamp, b.time_stamp) || (a.time_stamp == b.time_stamp && text_lt(
        a.value,
        b.value,
    ))
}

pub proof fn lemma_note_order(a: NoteView, b: NoteView, c: NoteView)
    ensures
        !note_lt(a, a),
        note_lt(a, b) ==> !note_lt(b, a),
        note_lt(a, b) && note_lt(b, c) ==> note_lt(a, c),
        a != b ==> note_lt(a, b) || note_lt(b, a),
{
    lemma_text_lt_irreflexive(a.value);
    lemma_text_lt_asymmetric(a.value, b.value);
    lemma_text_lt_transitive(a.value, b.value, c.value);
    lemma_text_lt_total(a.value, b.value);
}

/// Strictly increasing: every note once, in order.
pub open spec fn notes_sorted(s: Seq<Note>) -> bool {
    forall|i: int, j: int| 0 <= i < j < s.len() ==> note_lt(#[trigger] s[i]@, #[trigger] s[j]@)
}

/// The notes held, as a set.
pub open spec fn note_set(s: Seq<Note>) -> Set<NoteView> {
    Set::new(|v: NoteView| exists|i: int| 0 <= i < s.len() && s[i]@ == v)
}

impl Note {
    /// A note with the given text, stamped with the current UTC time.
    pub fn from(input: String) -> (r: Note)
        ensures
            r.value@ == input@,
    {
        Note { value: input, time_stamp: now() }
    }

    /// A copy of the note.
    pub fn duplicate(&self) -> (r: Note)
        ensures
            r@ == self@,
    {
        Note { time_stamp: self.time_stamp, value: self.value.clone() }
    }

    /// `Less`, `Equal` or `Greater` as `self` comes before, is, or comes after `other`.
    pub fn compare(&self, other: &Note) -> (r: core::cmp::Ordering)
        ensures
            (r == core::cmp::Ordering::Less) == note_lt(self@, other@),
            (r == core::cmp::Ordering::Equal) == (self@ == other@),
            (r == core::cmp::Ordering::Greater) == note_lt(other@, self@),
    {
        proof {
            lemma_note_order(self@, other@, other@);
            lemma_note_order(other@, self@, self@);
        }
        match self.time_stamp.compare(&other.time_stamp) {
            core::cmp::Ordering::Equal => compare_text(self.value.as_str(), other.value.as_str()),
            o => o,
        }
    }

    /// Whether `self` comes before `other`.
    pub fn is_before(&self, other: &Note) -> (r: bool)
        ensures
            r == note_lt(self@, other@),
    {
        match self.compare(other) {
            core::cmp::Ordering::Less => true,
            _ => false,
        }
    }

    /// Whether the two notes have the same instant and text.
    pub fn same_as(&self, other: &Note) -> (r: bool)
        ensures
            r == (self@ == other@),
    {
        match self.compare(other) {
            core::cmp::Ordering::Equal => true,
            _ => false,
        }
    }
}

/// Adds a note to a sorted list of notes; a note already there is not added twice.
pub fn insert_note(notes: &mut Vec<Note>, note: Note)
    requires
        notes_sorted(old(notes)@),
    ensures
        notes_sorted(final(notes)@),
        note_set(final(notes)@) == note_set(old(notes)@).insert(note@),
{
    let n = notes.len();
    let mut i: usize = 0;
    while i < n && notes[i].is_before(&note)
        invariant
            n == notes@.len(),
            i <= n,
            notes_sorted(notes@),
            forall|j: int| 0 <= j < i ==> note_lt(#[trigger] notes@[j]@, note@),
        decreases n - i,
    {
        i = i + 1;
    }
    let ghost before = notes@;
    if i < n && notes[i].same_as(&note) {
        assert(note_set(notes@) =~= note_set(before).insert(note@));
        return ;
    }
    proof {
        if i < n {
            lemma_note_order(notes@[i as int]@, note@, note@);
            lemma_note_order(note@, notes@[i as int]@, note@);
        }
    }
    notes.insert(i, note);
    assert forall|a: int, b: int| 0 <= a < b < notes@.len() implies note_lt(
        #[trigger] notes@[a]@,
        #[trigger] notes@[b]@,
    ) by {
        if b == i {
        } else if a == i {
            lemma_note_order(note@, before[i as int]@, before[b - 1]@);
        } else if a < i && b > i {
            lemma_note_order(before[a]@, note@, before[b - 1]@);
            if b - 1 > i as int {
                lemma_note_order(note@, before[i as int]@, before[b - 1]@);
            }
        } else if a > i {
            assert(note_lt(before[a - 1]@, before[b - 1]@));
        } else {
            assert(note_lt(before[a]@, before[b]@));
        }
    }
    assert forall|v: NoteView| #[trigger] note_set(notes@).contains(v) == note_set(
        before,
    ).insert(note@).contains(v) by {
        if note_set(before).contains(v) {
            let k = choose|k: int| 0 <= k < before.len() && before[k]@ == v;
            if k < i {
                assert(notes@[k]@ == v);
            } else {
                assert(notes@[k + 1]@ == v);
            }
        }
        if note_set(notes@).contains(v) {
            let k = choose|k: int| 0 <= k < notes@.len() && notes@[k]@ == v;
            if k < i {
                assert(before[k]@ == v);
            } else if k > i {
                assert(before[k - 1]@ == v);
            }
        }
        if v == note@ {
            assert(notes@[i as int]@ == v);
        }
    }
    assert(note_set(notes@) =~= note_set(before).insert(note@));
}

} // verus!
