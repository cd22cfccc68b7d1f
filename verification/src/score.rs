//! The hierarchical score document the extraction pass walks:
//! score, parts, measures and measure elements. An external parser
//! produces this structure; the crate itself never reads raw markup.

use vstd::prelude::*;
use crate::model::pitch::{letter_semitone, NoteName};
use crate::rational::Rational;

verus! {

/// A spelled step letter as written in the document.
#[derive(Debug, Clone, Copy, PartialEq, Eq, Structural)]
pub enum Step {
    A,
    B,
    C,
    D,
    E,
    F,
    G,
}

/// A pitched note's spelling in the document: step letter, octave and
/// optional chromatic alteration in semitones.
#[derive(Debug, Clone, Copy, PartialEq, Eq, Structural)]
pub struct ScorePitch {
    pub step: Step,
    pub octave: u8,
    pub alter: Option<i8>,
}

/// A note event: either a sounded pitch or a silent/non-pitched event
/// (a rest, an unpitched percussion note).
#[derive(Debug, Clone, Copy, PartialEq, Eq, Structural)]
pub enum NoteEvent {
    Pitched(ScorePitch),
    Unpitched,
}

/// One time-signature entry of an attributes block, as written: beats
/// and beat type are digit texts.
#[derive(Debug)]
pub struct TimeSpec {
    pub beats: Vec<u8>,
    pub beat_type: Vec<u8>,
}

/// An attributes block; it may carry time signatures.
#[derive(Debug)]
pub struct AttributesElement {
    pub times: Vec<TimeSpec>,
}

/// The beat unit of a metronome mark.
#[derive(Debug, Clone, Copy, PartialEq, Eq, Structural)]
pub enum BeatUnit {
    Quarter,
    Half,
    /// Any other note value (whole, eighth, ...).
    Other,
}

/// What the metronome mark equates the beat unit to.
#[derive(Debug)]
pub enum BeatEquation {
    /// A plain number of beats per minute, as written (digit text with
    /// an optional fraction part).
    PerMinute(Vec<u8>),
    /// A relation to another note value instead of a number.
    NoteRelation,
}

/// A beat-based metronome mark: beat unit, optional dot, equation.
#[derive(Debug)]
pub struct BeatBased {
    pub beat_unit: BeatUnit,
    pub dotted: bool,
    pub equation: BeatEquation,
}

/// A metronome mark.
#[derive(Debug)]
pub enum Metronome {
    BeatBased(BeatBased),
    /// Metric modulation or other content this library does not support.
    Other,
}

/// One entry of a direction's content list.
#[derive(Debug)]
pub enum DirectionContent {
    Metronome(Metronome),
    /// Words, dynamics, and anything else without tempo meaning.
    Other,
}

/// A direction element: an optional already-resolved sound tempo
/// (quarter-note beats per minute) and the notated direction contents.
#[derive(Debug)]
pub struct DirectionElement {
    pub sound_tempo: Option<Rational>,
    pub direction_types: Vec<DirectionContent>,
}

/// One element of a measure, in document order.
#[derive(Debug)]
pub enum MeasureElement {
    Note(NoteEvent),
    Attributes(AttributesElement),
    Direction(DirectionElement),
    /// Barlines, backups and other elements without analysis meaning.
    Other,
}

/// A measure: its elements in document order.
#[derive(Debug)]
pub struct Measure {
    pub elements: Vec<MeasureElement>,
}

/// A part: its measures in document order.
#[derive(Debug)]
pub struct Part {
    pub measures: Vec<Measure>,
}

/// A full score document.
#[derive(Debug)]
pub struct Score {
    pub parts: Vec<Part>,
}

/// The letter name a document step denotes.
pub open spec fn spec_step_letter(s: Step) -> NoteName {
    match s {
        Step::A => NoteName::A,
        Step::B => NoteName::B,
        Step::C => NoteName::C,
        Step::D => NoteName::D,
        Step::E => NoteName::E,
        Step::F => NoteName::F,
        Step::G => NoteName::G,
    }
}

// ---------------------------------------------------------------------------
// Well-formedness of a parsed document
// ---------------------------------------------------------------------------

/// What the core assumes of a document once the external parser accepted
/// it: sound tempos are valid rationals, octaves lie in the notation's
/// 0..=9 range, no sounded pitch lies below the lowest key, and a
/// measure's element count fits the note counter.
pub open spec fn element_wf(e: MeasureElement) -> bool {
    match e {
        MeasureElement::Direction(d) => match d.sound_tempo {
            Some(t) => t.well_formed(),
            None => true,
        },
        MeasureElement::Note(NoteEvent::Pitched(sp)) => {
            &&& sp.octave <= 9
            &&& match sp.alter {
                Some(a) => -2 <= a <= 2
                    ==> 12 * (sp.octave as int) + letter_semitone(spec_step_letter(sp.step))
                        + a as int >= 0,
                None => true,
            }
        },
        _ => true,
    }
}

pub open spec fn measure_wf(m: Measure) -> bool {
    &&& m.elements@.len() <= u32::MAX
    &&& forall|i: int| 0 <= i < m.elements@.len() ==> element_wf(#[trigger] m.elements@[i])
}

pub open spec fn part_wf(p: Part) -> bool {
    forall|i: int| 0 <= i < p.measures@.len() ==> measure_wf(#[trigger] p.measures@[i])
}

pub open spec fn score_wf(s: Score) -> bool {
    forall|i: int| 0 <= i < s.parts@.len() ==> part_wf(#[trigger] s.parts@[i])
}

/// The measures of a run of parts, concatenated in document order.
pub open spec fn flat_measures_of(parts: Seq<Part>) -> Seq<Measure>
    decreases parts.len(),
{
    if parts.len() == 0 {
        Seq::empty()
    } else {
        parts[0].measures@ + flat_measures_of(parts.drop_first())
    }
}

/// All measures of the score, parts in document order and measures in
/// document order within each part.
pub open spec fn flat_measures(s: Score) -> Seq<Measure> {
    flat_measures_of(s.parts@)
}

/// How many measures the first `pi` parts hold together.
pub open spec fn flat_prefix_len(parts: Seq<Part>, pi: int) -> int {
    flat_measures_of(parts.subrange(0, pi)).len() as int
}

/// The flattened measures split at any part boundary.
pub proof fn lemma_flat_decompose(parts: Seq<Part>, pi: int)
    requires
        0 <= pi <= parts.len(),
    ensures
        flat_measures_of(parts) == flat_measures_of(parts.subrange(0, pi)) + flat_measures_of(
            parts.subrange(pi, parts.len() as int),
        ),
    decreases pi,
{
    if pi == 0 {
        assert(parts.subrange(0, 0) =~= Seq::<Part>::empty());
        assert(parts.subrange(0, parts.len() as int) =~= parts);
        assert(flat_measures_of(parts.subrange(0, 0)) + flat_measures_of(
            parts.subrange(0, parts.len() as int),
        ) =~= flat_measures_of(parts));
    } else {
        lemma_flat_decompose(parts.drop_first(), pi - 1);
        assert(parts.drop_first().subrange(0, pi - 1) =~= parts.subrange(1, pi));
        assert(parts.drop_first().subrange(pi - 1, parts.drop_first().len() as int)
            =~= parts.subrange(pi, parts.len() as int));
        assert(parts.subrange(0, pi)[0] == parts[0]);
        assert(parts.subrange(0, pi).drop_first() =~= parts.subrange(1, pi));
        assert(flat_measures_of(parts) =~= flat_measures_of(parts.subrange(0, pi))
            + flat_measures_of(parts.subrange(pi, parts.len() as int)));
    }
}

/// Crossing one part advances the flat position by that part's measure
/// count.
pub proof fn lemma_flat_prefix_step(parts: Seq<Part>, pi: int)
    requires
        0 <= pi < parts.len(),
    ensures
        flat_prefix_len(parts, pi + 1) == flat_prefix_len(parts, pi)
            + parts[pi].measures@.len(),
        0 <= flat_prefix_len(parts, pi),
        flat_prefix_len(parts, pi + 1) <= flat_measures_of(parts).len(),
{
    lemma_flat_decompose(parts.subrange(0, pi + 1), pi);
    assert(parts.subrange(0, pi + 1).subrange(0, pi) =~= parts.subrange(0, pi));
    let tail = parts.subrange(0, pi + 1).subrange(pi, pi + 1);
    assert(tail[0] == parts[pi]);
    assert(tail.drop_first() =~= Seq::<Part>::empty());
    assert(flat_measures_of(tail.drop_first()).len() == 0);
    assert(flat_measures_of(tail) == tail[0].measures@ + flat_measures_of(tail.drop_first()));
    assert(flat_measures_of(tail) =~= parts[pi].measures@);
    lemma_flat_decompose(parts, pi + 1);
}

/// The flat position starts at zero and ends at the full length.
pub proof fn lemma_flat_prefix_ends(parts: Seq<Part>)
    ensures
        flat_prefix_len(parts, 0) == 0,
        flat_prefix_len(parts, parts.len() as int) == flat_measures_of(parts).len(),
{
    assert(parts.subrange(0, 0) =~= Seq::<Part>::empty());
    assert(parts.subrange(0, parts.len() as int) =~= parts);
}

/// Where a given measure of a given part stands among the flattened
/// measures.
pub proof fn lemma_flat_index(parts: Seq<Part>, pi: int, mi: int)
    requires
        0 <= pi < parts.len(),
        0 <= mi < parts[pi].measures@.len(),
    ensures
        0 <= flat_prefix_len(parts, pi) + mi < flat_measures_of(parts).len(),
        flat_measures_of(parts)[flat_prefix_len(parts, pi) + mi] == parts[pi].measures@[mi],
{
    lemma_flat_decompose(parts, pi);
    lemma_flat_prefix_step(parts, pi);
    let tail = parts.subrange(pi, parts.len() as int);
    assert(tail[0] == parts[pi]);
    assert(tail.drop_first() =~= parts.subrange(pi + 1, parts.len() as int));
    assert(flat_measures_of(tail) == parts[pi].measures@ + flat_measures_of(
        parts.subrange(pi + 1, parts.len() as int),
    ));
    assert(flat_measures_of(parts)[flat_prefix_len(parts, pi) + mi]
        == flat_measures_of(tail)[mi]);
    assert(flat_measures_of(tail)[mi] == parts[pi].measures@[mi]);
}

/// Every measure of a well-formed run of parts is well formed.
pub proof fn lemma_flat_measures_wf(parts: Seq<Part>)
    requires
        forall|i: int| 0 <= i < parts.len() ==> part_wf(#[trigger] parts[i]),
    ensures
        forall|k: int| 0 <= k < flat_measures_of(parts).len()
            ==> measure_wf(#[trigger] flat_measures_of(parts)[k]),
    decreases parts.len(),
{
    if parts.len() > 0 {
        assert(part_wf(parts[0]));
        lemma_flat_measures_wf(parts.drop_first());
        assert forall|k: int| 0 <= k < flat_measures_of(parts).len()
            implies measure_wf(#[trigger] flat_measures_of(parts)[k]) by {
            let head = parts[0].measures@;
            if k < head.len() {
                assert(flat_measures_of(parts)[k] == head[k]);
            } else {
                assert(flat_measures_of(parts)[k]
                    == flat_measures_of(parts.drop_first())[k - head.len()]);
            }
        }
    }
}

} // verus!
