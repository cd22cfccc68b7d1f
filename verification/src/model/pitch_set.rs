//! Small duplicate-free collections of pitches and of piano keys.
//!
//! Each is a vector holding every element once; the view is the set of
//! its elements. Both element spaces are finite, which bounds every such
//! set's cardinality well below `u32::MAX`.

use vstd::prelude::*;
use vstd::relations::injective_on;
use vstd::set_lib::{lemma_len_subset, lemma_map_size, range_set_properties};
use crate::model::piano_key::{chromatic_semitone, PianoKey};
use crate::model::pitch::{accidental_offset, letter_semitone, Pitch};

verus! {


/// Appending to a sequence inserts into the set of its elements.
pub proof fn lemma_push_to_set<A>(s: Seq<A>, v: A)
    ensures
        s.push(v).to_set() =~= s.to_set().insert(v),
{
    assert forall|x: A| s.push(v).to_set().contains(x)
        implies s.to_set().insert(v).contains(x) by {
        let i = choose|i: int| 0 <= i < s.push(v).len() && s.push(v)[i] == x;
        if i < s.len() {
            assert(s[i] == x);
            assert(s.contains(x));
        } else {
            assert(x == v);
        }
    }
    assert forall|x: A| s.to_set().insert(v).contains(x)
        implies s.push(v).to_set().contains(x) by {
        if x == v {
            assert(s.push(v)[s.len() as int] == x);
            assert(s.push(v).contains(x));
        } else {
            let i = choose|i: int| 0 <= i < s.len() && s[i] == x;
            assert(s.push(v)[i] == x);
            assert(s.push(v).contains(x));
        }
    }
}

// ---------------------------------------------------------------------------
// PitchSet
// ---------------------------------------------------------------------------

/// A set of spelled pitches.
#[derive(Debug)]
pub struct PitchSet {
    items: Vec<Pitch>,
}

impl View for PitchSet {
    type V = Set<Pitch>;

    closed spec fn view(&self) -> Set<Pitch> {
        self.items@.to_set()
    }
}

impl PartialEq for PitchSet {
    /// Set equality: same elements, in any order.
    fn eq(&self, other: &PitchSet) -> (r: bool) {
        self.subset_of(other) && other.subset_of(self)
    }
}

impl vstd::std_specs::cmp::PartialEqSpecImpl for PitchSet {
    open spec fn obeys_eq_spec() -> bool {
        true
    }

    open spec fn eq_spec(&self, other: &PitchSet) -> bool {
        self@ =~= other@
    }
}

impl PitchSet {
    /// The elements in insertion order.
    pub closed spec fn elements(&self) -> Seq<Pitch> {
        self.items@
    }

    /// Every element occurs once.
    pub open spec fn well_formed(&self) -> bool {
        self.elements().no_duplicates()
    }

    pub fn new() -> (r: PitchSet)
        ensures
            r.well_formed(),
            r@ == Set::<Pitch>::empty(),
            r.elements() == Seq::<Pitch>::empty(),
    {
        let r = PitchSet { items: Vec::new() };
        proof {
            assert(r.items@.to_set() =~= Set::<Pitch>::empty());
        }
        r
    }

    pub fn contains(&self, pitch: &Pitch) -> (r: bool)
        ensures
            r == self@.contains(*pitch),
    {
        let mut i: usize = 0;
        while i < self.items.len()
            invariant
                i <= self.items.len(),
                forall|j: int| 0 <= j < i ==> self.items@[j] != *pitch,
            decreases self.items.len() - i,
        {
            if self.items[i] == *pitch {
                proof {
                    assert(self.items@.contains(*pitch));
                }
                return true;
            }
            i += 1;
        }
        proof {
            assert(!self.items@.contains(*pitch));
        }
        false
    }

    /// Add a pitch; already-present pitches leave the set unchanged.
    pub fn insert(&mut self, pitch: Pitch)
        requires
            old(self).well_formed(),
        ensures
            final(self).well_formed(),
            final(self)@ == old(self)@.insert(pitch),
            final(self).elements() == if old(self)@.contains(pitch) {
                old(self).elements()
            } else {
                old(self).elements().push(pitch)
            },
    {
        if !self.contains(&pitch) {
            self.items.push(pitch);
            proof {
                assert(self.items@.drop_last() == old(self).items@);
                lemma_push_to_set(old(self).items@, pitch);
            }
        } else {
            proof {
                assert(self.items@.to_set() =~= old(self).items@.to_set().insert(pitch));
            }
        }
    }

    pub fn len(&self) -> (r: usize)
        requires
            self.well_formed(),
        ensures
            r == self.elements().len(),
            r == self@.len(),
            self@.finite(),
    {
        proof {
            self.items@.unique_seq_to_set();
        }
        self.items.len()
    }

    /// The element at position `i` of the insertion order.
    pub fn get(&self, i: usize) -> (r: Pitch)
        requires
            i < self.elements().len(),
        ensures
            r == self.elements()[i as int],
            self@.contains(r),
    {
        proof {
            assert(self.items@.contains(self.items@[i as int]));
        }
        self.items[i]
    }

    /// The set view is exactly the set of the listed elements.
    pub proof fn lemma_view_is_elements(&self)
        ensures
            self@ == self.elements().to_set(),
    {
    }

    fn subset_of(&self, other: &PitchSet) -> (r: bool)
        ensures
            r == self@.subset_of(other@),
    {
        let mut i: usize = 0;
        while i < self.items.len()
            invariant
                i <= self.items.len(),
                forall|j: int| 0 <= j < i ==> other@.contains(#[trigger] self.items@[j]),
            decreases self.items.len() - i,
        {
            if !other.contains(&self.items[i]) {
                proof {
                    assert(self.items@.contains(self.items@[i as int]));
                    assert(self@.contains(self.items@[i as int]));
                }
                return false;
            }
            i += 1;
        }
        proof {
            assert forall|x: Pitch| self@.contains(x) implies other@.contains(x) by {
                let j = choose|j: int| 0 <= j < self.items@.len() && self.items@[j] == x;
                assert(other@.contains(self.items@[j]));
            }
        }
        true
    }
}

// ---------------------------------------------------------------------------
// KeySet
// ---------------------------------------------------------------------------

/// A set of piano keys.
#[derive(Debug)]
pub struct KeySet {
    items: Vec<PianoKey>,
}

impl View for KeySet {
    type V = Set<PianoKey>;

    closed spec fn view(&self) -> Set<PianoKey> {
        self.items@.to_set()
    }
}

impl KeySet {
    /// The elements in insertion order.
    pub closed spec fn elements(&self) -> Seq<PianoKey> {
        self.items@
    }

    /// Every element occurs once.
    pub open spec fn well_formed(&self) -> bool {
        self.elements().no_duplicates()
    }

    pub fn new() -> (r: KeySet)
        ensures
            r.well_formed(),
            r@ == Set::<PianoKey>::empty(),
    {
        let r = KeySet { items: Vec::new() };
        proof {
            assert(r.items@.to_set() =~= Set::<PianoKey>::empty());
        }
        r
    }

    pub fn contains(&self, key: &PianoKey) -> (r: bool)
        ensures
            r == self@.contains(*key),
    {
        let mut i: usize = 0;
        while i < self.items.len()
            invariant
                i <= self.items.len(),
                forall|j: int| 0 <= j < i ==> self.items@[j] != *key,
            decreases self.items.len() - i,
        {
            if self.items[i] == *key {
                proof {
                    assert(self.items@.contains(*key));
                }
                return true;
            }
            i += 1;
        }
        proof {
            assert(!self.items@.contains(*key));
        }
        false
    }

    /// Add a key; already-present keys leave the set unchanged.
    pub fn insert(&mut self, key: PianoKey)
        requires
            old(self).well_formed(),
        ensures
            final(self).well_formed(),
            final(self)@ == old(self)@.insert(key),
    {
        if !self.contains(&key) {
            self.items.push(key);
            proof {
                assert(self.items@.drop_last() == old(self).items@);
                lemma_push_to_set(old(self).items@, key);
            }
        } else {
            proof {
                assert(self.items@.to_set() =~= old(self).items@.to_set().insert(key));
            }
        }
    }

    pub fn len(&self) -> (r: usize)
        requires
            self.well_formed(),
        ensures
            r == self.elements().len(),
            r == self@.len(),
            self@.finite(),
    {
        proof {
            self.items@.unique_seq_to_set();
        }
        self.items.len()
    }

    /// The set view is exactly the set of the listed elements.
    pub proof fn lemma_view_is_elements(&self)
        ensures
            self@ == self.elements().to_set(),
    {
    }
}

// ---------------------------------------------------------------------------
// Cardinality bounds from the finiteness of each space
// ---------------------------------------------------------------------------

/// Injective code of a spelled pitch: below 60 * 256 == 15360.
pub open spec fn pitch_code(p: Pitch) -> int {
    (letter_semitone(p.note_name) * 5 + (accidental_offset(p.accidental) + 2)) * 256
        + p.octave as int
}

/// A set of spelled pitches has fewer than 15360 elements.
pub proof fn lemma_pitch_set_len_bound(s: Set<Pitch>)
    requires
        s.finite(),
    ensures
        s.len() <= 15360,
{
    let f = |p: Pitch| pitch_code(p) as u16;
    assert(injective_on(f, s)) by {
        assert forall|p1: Pitch, p2: Pitch|
            s.contains(p1) && s.contains(p2) && #[trigger] f(p1) == #[trigger] f(p2)
            implies p1 == p2 by {
            assert(pitch_code(p1) == pitch_code(p2));
        }
    }
    lemma_map_size(s, s.map(f), f);
    assert(s.map(f).subset_of(Set::<u16>::range(0, 15360))) by {
        assert forall|x: u16| s.map(f).contains(x)
            implies Set::<u16>::range(0, 15360).contains(x) by {
            let p = choose|p: Pitch| s.contains(p) && f(p) == x;
            assert(0 <= pitch_code(p) < 15360);
        }
    }
    range_set_properties::<u16>(0, 8960);
    lemma_len_subset(s.map(f), Set::<u16>::range(0, 15360));
}

/// Injective code of a piano key: below 12 * 256 == 3072.
pub open spec fn key_code(k: PianoKey) -> int {
    chromatic_semitone(k.note_name) * 256 + k.octave as int
}

/// A set of piano keys has fewer than 3072 elements.
pub proof fn lemma_key_set_len_bound(s: Set<PianoKey>)
    requires
        s.finite(),
    ensures
        s.len() <= 3072,
{
    let f = |k: PianoKey| key_code(k) as u16;
    assert(injective_on(f, s)) by {
        assert forall|k1: PianoKey, k2: PianoKey|
            s.contains(k1) && s.contains(k2) && #[trigger] f(k1) == #[trigger] f(k2)
            implies k1 == k2 by {
            assert(key_code(k1) == key_code(k2));
        }
    }
    lemma_map_size(s, s.map(f), f);
    assert(s.map(f).subset_of(Set::<u16>::range(0, 3072))) by {
        assert forall|x: u16| s.map(f).contains(x)
            implies Set::<u16>::range(0, 3072).contains(x) by {
            let k = choose|k: PianoKey| s.contains(k) && f(k) == x;
            assert(0 <= key_code(k) < 3072);
        }
    }
    range_set_properties::<u16>(0, 3072);
    lemma_len_subset(s.map(f), Set::<u16>::range(0, 3072));
}

} // verus!
