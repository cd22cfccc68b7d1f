//! The extraction pass: walk a score document once, parts in document
//! order and measures within each part in document order, and emit one
//! `MeasureData` record per measure. Tempo and time signature are
//! carried forward across measures; both are seeded by scanning the
//! whole score for the first explicit indication, falling back to
//! 120 beats per minute and 4/4.

use vstd::prelude::*;
use crate::extraction::text::{spec_parse_decimal, spec_parse_u32, parse_decimal_bpm,
    parse_u32_digits};
use crate::model::measure_data::MeasureData;
use crate::model::pitch::{pitch_semitone, Accidental, NoteName, Pitch};
use crate::model::pitch_set::PitchSet;
use crate::model::time_signature::TimeSignature;
use crate::rational::{frac_eq, lemma_norm_frac, Rational};
use crate::score::{element_wf, flat_measures, measure_wf, score_wf, spec_step_letter};
use crate::score::{BeatBased, BeatEquation, BeatUnit, DirectionContent, DirectionElement,
    Measure, MeasureElement, Metronome, NoteEvent, Score, ScorePitch, Step};

verus! {

/// Errors for notation this library does not support. Such notation is
/// never silently defaulted: defaulting would misrepresent the tempo or
/// the pitch content of the piece.
#[derive(Debug, Clone, Copy, PartialEq, Eq, Structural)]
pub enum ExtractionError {
    /// A metronome mark whose content is not beat based.
    UnsupportedMetronome,
    /// A beats-per-minute that is not a plain decimal number within
    /// this library's digit caps (for instance a relation to another
    /// note value).
    NonNumericPerMinute,
    /// A metronome beat unit other than quarter or half.
    UnsupportedBeatUnit,
    /// An accidental alteration outside -2 ..= 2 semitones.
    UnsupportedAlteration,
}

/// One measure's extracted facts at the specification level: note
/// count, quarter-note tempo, time signature, pitch set.
pub type SpecMeasure = (int, (int, int), TimeSignature, Set<Pitch>);

// ---------------------------------------------------------------------------
// Pitches
// ---------------------------------------------------------------------------

/// The accidental an alteration denotes, for alterations within range.
pub open spec fn spec_accidental_of(alter: Option<i8>) -> Result<Accidental, ExtractionError> {
    match alter {
        None => Ok(Accidental::Natural),
        Some(a) => if a == -2 {
            Ok(Accidental::DoubleFlat)
        } else if a == -1 {
            Ok(Accidental::Flat)
        } else if a == 0 {
            Ok(Accidental::Natural)
        } else if a == 1 {
            Ok(Accidental::Sharp)
        } else if a == 2 {
            Ok(Accidental::DoubleSharp)
        } else {
            Err(ExtractionError::UnsupportedAlteration)
        },
    }
}

/// The spelled pitch a document pitch denotes.
pub open spec fn spec_pitch_of(sp: ScorePitch) -> Result<Pitch, ExtractionError> {
    match spec_accidental_of(sp.alter) {
        Err(e) => Err(e),
        Ok(acc) => Ok(
            Pitch { note_name: spec_step_letter(sp.step), octave: sp.octave, accidental: acc },
        ),
    }
}

/// Map a document step letter to its note name.
pub fn extract_note_name_from_pitch(sp: &ScorePitch) -> (r: NoteName)
    ensures
        r == spec_step_letter(sp.step),
{
    match sp.step {
        Step::A => NoteName::A,
        Step::B => NoteName::B,
        Step::C => NoteName::C,
        Step::D => NoteName::D,
        Step::E => NoteName::E,
        Step::F => NoteName::F,
        Step::G => NoteName::G,
    }
}

/// Map an alteration to an accidental; alterations outside two
/// semitones either way are unsupported notation.
pub fn get_accidental_from_pitch(sp: &ScorePitch) -> (r: Result<Accidental, ExtractionError>)
    ensures
        r == spec_accidental_of(sp.alter),
{
    match sp.alter {
        None => Ok(Accidental::Natural),
        Some(a) => match a {
            -2 => Ok(Accidental::DoubleFlat),
            -1 => Ok(Accidental::Flat),
            0 => Ok(Accidental::Natural),
            1 => Ok(Accidental::Sharp),
            2 => Ok(Accidental::DoubleSharp),
            _ => Err(ExtractionError::UnsupportedAlteration),
        },
    }
}

// ---------------------------------------------------------------------------
// Metronome marks
// ---------------------------------------------------------------------------

/// The quarter-note tempo a beat-based metronome mark denotes:
/// `half` doubles the per-minute number, a dot multiplies by 1.5.
pub open spec fn spec_resolve_beat_based(bb: BeatBased) -> Result<(int, int), ExtractionError> {
    match bb.equation {
        BeatEquation::NoteRelation => Err(ExtractionError::NonNumericPerMinute),
        BeatEquation::PerMinute(text) => match spec_parse_decimal(text@) {
            None => Err(ExtractionError::NonNumericPerMinute),
            Some(v) => match bb.beat_unit {
                BeatUnit::Other => Err(ExtractionError::UnsupportedBeatUnit),
                BeatUnit::Quarter => if bb.dotted {
                    Ok((3 * v.0, 2 * v.1))
                } else {
                    Ok(v)
                },
                BeatUnit::Half => if bb.dotted {
                    Ok((6 * v.0, 2 * v.1))
                } else {
                    Ok((2 * v.0, v.1))
                },
            },
        },
    }
}

/// The quarter-note tempo a metronome mark denotes.
pub open spec fn spec_resolve_metronome(m: Metronome) -> Result<(int, int), ExtractionError> {
    match m {
        Metronome::Other => Err(ExtractionError::UnsupportedMetronome),
        Metronome::BeatBased(bb) => spec_resolve_beat_based(bb),
    }
}

/// Resolve a beat-based metronome mark to a quarter-note tempo.
pub fn extract_bpm_from_beat_based(bb: &BeatBased) -> (r: Result<Rational, ExtractionError>)
    ensures
        r is Ok <==> spec_resolve_beat_based(*bb) is Ok,
        r is Ok ==> spec_resolve_beat_based(*bb).unwrap().1 >= 1,
        r matches Ok(q) ==> q.well_formed() && q@.0 >= 0 && frac_eq(
            q@,
            spec_resolve_beat_based(*bb).unwrap(),
        ),
        r matches Err(e) ==> spec_resolve_beat_based(*bb) == Result::<(int, int),
            ExtractionError>::Err(e),
{
    let text = match &bb.equation {
        BeatEquation::NoteRelation => {
            return Err(ExtractionError::NonNumericPerMinute);
        },
        BeatEquation::PerMinute(text) => text,
    };
    let per_minute = match parse_decimal_bpm(text) {
        None => {
            return Err(ExtractionError::NonNumericPerMinute);
        },
        Some(q) => q,
    };
    let ghost v: (int, int) = spec_parse_decimal(text@).unwrap();
    proof {
        crate::extraction::text::lemma_spec_parse_decimal_props(text@);
    }
    let base = match bb.beat_unit {
        BeatUnit::Other => {
            return Err(ExtractionError::UnsupportedBeatUnit);
        },
        BeatUnit::Quarter => per_minute,
        BeatUnit::Half => {
            let doubled = Rational::new(2 * per_minute.numer(), per_minute.denom());
            proof {
                lemma_norm_frac(2 * per_minute@.0, per_minute@.1);
                assert(frac_eq(doubled@, (2 * v.0, v.1))) by (nonlinear_arith)
                    requires
                        frac_eq(doubled@, (2 * per_minute@.0, per_minute@.1)),
                        frac_eq(per_minute@, v),
                        per_minute@.1 >= 1,
                        v.1 >= 1,
                {}
            }
            doubled
        },
    };
    let ghost base_spec: (int, int) = if bb.beat_unit is Half { (2 * v.0, v.1) } else { v };
    proof {
        assert(crate::rational::int_abs(base@.0) <= 2_000_000_000_000_000_000);
    }
    if bb.dotted {
        let dotted = Rational::new(3 * base.numer(), 2 * base.denom());
        proof {
            assert(frac_eq(dotted@, (3 * base_spec.0, 2 * base_spec.1))) by (nonlinear_arith)
                requires
                    frac_eq(dotted@, (3 * base@.0, 2 * base@.1)),
                    frac_eq(base@, base_spec),
                    base@.1 >= 1,
                    base_spec.1 >= 1,
            {}
            assert(dotted@.0 >= 0) by (nonlinear_arith)
                requires
                    frac_eq(dotted@, (3 * base_spec.0, 2 * base_spec.1)),
                    dotted@.1 >= 1,
                    base_spec.0 >= 0,
                    base_spec.1 >= 1,
            {}
        }
        Ok(dotted)
    } else {
        proof {
            assert(base@.0 >= 0) by (nonlinear_arith)
                requires
                    frac_eq(base@, base_spec),
                    base@.1 >= 1,
                    base_spec.0 >= 0,
                    base_spec.1 >= 1,
            {}
        }
        Ok(base)
    }
}

/// Resolve a metronome mark to a quarter-note tempo; content that is
/// not beat based is unsupported notation.
pub fn extract_bpm_from_metronome(metronome: &Metronome) -> (r: Result<Rational, ExtractionError>)
    ensures
        r is Ok <==> spec_resolve_metronome(*metronome) is Ok,
        r is Ok ==> spec_resolve_metronome(*metronome).unwrap().1 >= 1,
        r matches Ok(q) ==> q.well_formed() && q@.0 >= 0 && frac_eq(
            q@,
            spec_resolve_metronome(*metronome).unwrap(),
        ),
        r matches Err(e) ==> spec_resolve_metronome(*metronome) == Result::<(int, int),
            ExtractionError>::Err(e),
{
    match metronome {
        Metronome::Other => Err(ExtractionError::UnsupportedMetronome),
        Metronome::BeatBased(bb) => extract_bpm_from_beat_based(bb),
    }
}

// ---------------------------------------------------------------------------
// Per-measure scans
// ---------------------------------------------------------------------------

/// The first metronome mark among a direction's contents.
pub open spec fn spec_first_metronome(dts: Seq<DirectionContent>) -> Option<Metronome>
    decreases dts.len(),
{
    if dts.len() == 0 {
        None
    } else {
        match dts[0] {
            DirectionContent::Metronome(m) => Some(m),
            DirectionContent::Other => spec_first_metronome(dts.drop_first()),
        }
    }
}

/// The first positive explicit sound tempo among a measure's elements.
pub open spec fn spec_first_sound_tempo(elems: Seq<MeasureElement>) -> Option<(int, int)>
    decreases elems.len(),
{
    if elems.len() == 0 {
        None
    } else {
        match elems[0] {
            MeasureElement::Direction(d) => match d.sound_tempo {
                Some(t) => if t@.0 > 0 {
                    Some(t@)
                } else {
                    spec_first_sound_tempo(elems.drop_first())
                },
                None => spec_first_sound_tempo(elems.drop_first()),
            },
            _ => spec_first_sound_tempo(elems.drop_first()),
        }
    }
}

/// The tempo the measure's metronome marks imply: the first direction
/// whose first metronome resolves to a positive tempo decides; an
/// unsupported mark on the way is an error; a non-positive resolved
/// tempo is treated as absent.
pub open spec fn spec_metronome_tempo(elems: Seq<MeasureElement>) -> Result<
    Option<(int, int)>,
    ExtractionError,
>
    decreases elems.len(),
{
    if elems.len() == 0 {
        Ok(None)
    } else {
        match elems[0] {
            MeasureElement::Direction(d) => match spec_first_metronome(d.direction_types@) {
                Some(m) => match spec_resolve_metronome(m) {
                    Err(e) => Err(e),
                    Ok(val) => if val.0 > 0 {
                        Ok(Some(val))
                    } else {
                        spec_metronome_tempo(elems.drop_first())
                    },
                },
                None => spec_metronome_tempo(elems.drop_first()),
            },
            _ => spec_metronome_tempo(elems.drop_first()),
        }
    }
}

/// The tempo a measure sets, if any: an explicit numeric sound tempo
/// anywhere in the measure takes precedence over a metronome mark.
pub open spec fn spec_measure_bpm(m: Measure) -> Result<Option<(int, int)>, ExtractionError> {
    match spec_first_sound_tempo(m.elements@) {
        Some(v) => Ok(Some(v)),
        None => spec_metronome_tempo(m.elements@),
    }
}

/// The first metronome mark among a direction's contents.
fn first_metronome_in_direction(d: &DirectionElement) -> (r: Option<&Metronome>)
    ensures
        r is Some <==> spec_first_metronome(d.direction_types@) is Some,
        r matches Some(m) ==> *m == spec_first_metronome(d.direction_types@).unwrap(),
{
    let dts = &d.direction_types;
    proof {
        assert(dts@.subrange(0, dts@.len() as int) =~= dts@);
    }
    let mut k: usize = 0;
    while k < dts.len()
        invariant
            0 <= k <= dts@.len(),
            spec_first_metronome(d.direction_types@) == spec_first_metronome(
                dts@.subrange(k as int, dts@.len() as int),
            ),
            dts@ == d.direction_types@,
        decreases dts@.len() - k,
    {
        proof {
            assert(dts@.subrange(k as int, dts@.len() as int)[0] == dts@[k as int]);
            assert(dts@.subrange(k as int, dts@.len() as int).drop_first() =~= dts@.subrange(
                k + 1,
                dts@.len() as int,
            ));
        }
        if let DirectionContent::Metronome(m) = &dts[k] {
            return Some(m);
        }
        k += 1;
    }
    proof {
        assert(dts@.subrange(dts@.len() as int, dts@.len() as int).len() == 0);
    }
    None
}

/// The tempo a measure sets, if any. An explicit sound tempo wins over
/// a metronome mark; unsupported metronome notation is an error.
pub fn extract_bpm_from_measure(measure: &Measure) -> (r: Result<
    Option<Rational>,
    ExtractionError,
>)
    requires
        measure_wf(*measure),
    ensures
        r is Ok <==> spec_measure_bpm(*measure) is Ok,
        r matches Ok(o) ==> {
            &&& (o is Some <==> spec_measure_bpm(*measure).unwrap() is Some)
            &&& (o matches Some(q) ==> q.well_formed() && q@.0 > 0 && frac_eq(
                q@,
                spec_measure_bpm(*measure).unwrap().unwrap(),
            ) && spec_measure_bpm(*measure).unwrap().unwrap().0 > 0 && spec_measure_bpm(
                *measure,
            ).unwrap().unwrap().1 >= 1)
        },
        r matches Err(e) ==> spec_measure_bpm(*measure) == Result::<
            Option<(int, int)>,
            ExtractionError,
        >::Err(e),
{
    let elems = &measure.elements;
    let n = elems.len();

    // First pass: an explicit sound tempo anywhere in the measure.
    proof {
        assert(elems@.subrange(0, elems@.len() as int) =~= elems@);
    }
    let mut i: usize = 0;
    while i < n
        invariant
            0 <= i <= n == elems@.len(),
            elems@ == measure.elements@,
            measure_wf(*measure),
            spec_first_sound_tempo(measure.elements@) == spec_first_sound_tempo(
                elems@.subrange(i as int, elems@.len() as int),
            ),
        decreases n - i,
    {
        proof {
            assert(elems@.subrange(i as int, elems@.len() as int)[0] == elems@[i as int]);
            assert(elems@.subrange(i as int, elems@.len() as int).drop_first() =~= elems@
                .subrange(i + 1, elems@.len() as int));
            assert(element_wf(measure.elements@[i as int]));
        }
        if let MeasureElement::Direction(d) = &elems[i] {
            if let Some(t) = &d.sound_tempo {
                if t.is_positive() {
                    return Ok(Some(*t));
                }
            }
        }
        i += 1;
    }
    proof {
        assert(elems@.subrange(n as int, elems@.len() as int).len() == 0);
        assert(spec_first_sound_tempo(measure.elements@) is None);
    }

    // Second pass: the first metronome mark that decides.
    proof {
        assert(elems@.subrange(0, elems@.len() as int) =~= elems@);
    }
    let mut i: usize = 0;
    while i < n
        invariant
            0 <= i <= n == elems@.len(),
            elems@ == measure.elements@,
            measure_wf(*measure),
            spec_first_sound_tempo(measure.elements@) is None,
            spec_metronome_tempo(measure.elements@) == spec_metronome_tempo(
                elems@.subrange(i as int, elems@.len() as int),
            ),
        decreases n - i,
    {
        proof {
            assert(elems@.subrange(i as int, elems@.len() as int)[0] == elems@[i as int]);
            assert(elems@.subrange(i as int, elems@.len() as int).drop_first() =~= elems@
                .subrange(i + 1, elems@.len() as int));
        }
        if let MeasureElement::Direction(d) = &elems[i] {
            if let Some(met) = first_metronome_in_direction(d) {
                match extract_bpm_from_metronome(met) {
                    Err(e) => {
                        return Err(e);
                    },
                    Ok(q) => {
                        proof {
                            crate::rational::lemma_frac_eq_sign(
                                q@,
                                spec_resolve_metronome(
                                    spec_first_metronome(d.direction_types@).unwrap(),
                                ).unwrap(),
                            );
                        }
                        if q.is_positive() {
                            return Ok(Some(q));
                        }
                    },
                }
            }
        }
        i += 1;
    }
    proof {
        assert(elems@.subrange(n as int, elems@.len() as int).len() == 0);
    }
    Ok(None)
}

/// The time signature a measure sets, if any: the first attributes
/// block carrying a time entry decides; texts that do not parse to
/// positive numbers are treated as absent.
pub open spec fn spec_measure_time_sig(elems: Seq<MeasureElement>) -> Option<TimeSignature>
    decreases elems.len(),
{
    if elems.len() == 0 {
        None
    } else {
        match elems[0] {
            MeasureElement::Attributes(a) => if a.times@.len() >= 1 {
                match (spec_parse_u32(a.times@[0].beats@), spec_parse_u32(
                    a.times@[0].beat_type@,
                )) {
                    (Some(b), Some(bt)) => if b >= 1 && bt >= 1 {
                        Some(TimeSignature { numerator: b, denominator: bt })
                    } else {
                        None
                    },
                    _ => None,
                }
            } else {
                spec_measure_time_sig(elems.drop_first())
            },
            _ => spec_measure_time_sig(elems.drop_first()),
        }
    }
}

/// The time signature a measure sets, if any.
pub fn extract_time_signature_from_measure(measure: &Measure) -> (r: Option<TimeSignature>)
    ensures
        r == spec_measure_time_sig(measure.elements@),
        r matches Some(t) ==> t.well_formed(),
{
    let elems = &measure.elements;
    let n = elems.len();
    proof {
        assert(elems@.subrange(0, elems@.len() as int) =~= elems@);
    }
    let mut i: usize = 0;
    while i < n
        invariant
            0 <= i <= n == elems@.len(),
            elems@ == measure.elements@,
            spec_measure_time_sig(measure.elements@) == spec_measure_time_sig(
                elems@.subrange(i as int, elems@.len() as int),
            ),
        decreases n - i,
    {
        proof {
            assert(elems@.subrange(i as int, elems@.len() as int)[0] == elems@[i as int]);
            assert(elems@.subrange(i as int, elems@.len() as int).drop_first() =~= elems@
                .subrange(i + 1, elems@.len() as int));
        }
        if let MeasureElement::Attributes(a) = &elems[i] {
            if a.times.len() >= 1 {
                let numerator = parse_u32_digits(&a.times[0].beats);
                let denominator = parse_u32_digits(&a.times[0].beat_type);
                if let (Some(b), Some(bt)) = (numerator, denominator) {
                    if b >= 1 && bt >= 1 {
                        return Some(TimeSignature::new(b, bt));
                    }
                }
                return None;
            }
        }
        i += 1;
    }
    proof {
        assert(elems@.subrange(n as int, elems@.len() as int).len() == 0);
    }
    None
}

/// How many pitched, sounding notes a run of elements holds.
pub open spec fn spec_note_count(elems: Seq<MeasureElement>) -> int
    decreases elems.len(),
{
    if elems.len() == 0 {
        0
    } else {
        (match elems[0] {
            MeasureElement::Note(NoteEvent::Pitched(_)) => 1int,
            _ => 0int,
        }) + spec_note_count(elems.drop_first())
    }
}

/// The note count never exceeds the element count.
proof fn lemma_note_count_bounds(elems: Seq<MeasureElement>)
    ensures
        0 <= spec_note_count(elems) <= elems.len(),
    decreases elems.len(),
{
    if elems.len() > 0 {
        lemma_note_count_bounds(elems.drop_first());
    }
}

/// Count the pitched, sounding notes of a measure; rests and other
/// non-pitched events are excluded.
pub fn get_nr_notes_in_measure(measure: &Measure) -> (r: u32)
    requires
        measure_wf(*measure),
    ensures
        r as int == spec_note_count(measure.elements@),
{
    let elems = &measure.elements;
    let n = elems.len();
    let mut count: u32 = 0;
    let mut i: usize = 0;
    proof {
        lemma_note_count_bounds(measure.elements@);
        assert(elems@.subrange(0, elems@.len() as int) =~= elems@);
    }
    while i < n
        invariant
            0 <= i <= n == elems@.len(),
            elems@ == measure.elements@,
            elems@.len() <= u32::MAX,
            count as int + spec_note_count(elems@.subrange(i as int, elems@.len() as int))
                == spec_note_count(measure.elements@),
            count as int <= i,
        decreases n - i,
    {
        proof {
            assert(elems@.subrange(i as int, elems@.len() as int)[0] == elems@[i as int]);
            assert(elems@.subrange(i as int, elems@.len() as int).drop_first() =~= elems@
                .subrange(i + 1, elems@.len() as int));
            lemma_note_count_bounds(elems@.subrange(i + 1, elems@.len() as int));
        }
        if let MeasureElement::Note(NoteEvent::Pitched(_)) = &elems[i] {
            count += 1;
        }
        i += 1;
    }
    proof {
        assert(elems@.subrange(n as int, elems@.len() as int).len() == 0);
    }
    count
}

/// The set of distinct spelled pitches among a run of elements, or the
/// first unsupported alteration.
pub open spec fn spec_measure_pitches(elems: Seq<MeasureElement>) -> Result<
    Set<Pitch>,
    ExtractionError,
>
    decreases elems.len(),
{
    if elems.len() == 0 {
        Ok(Set::empty())
    } else {
        match elems[0] {
            MeasureElement::Note(NoteEvent::Pitched(sp)) => match spec_pitch_of(sp) {
                Err(e) => Err(e),
                Ok(p) => match spec_measure_pitches(elems.drop_first()) {
                    Err(e) => Err(e),
                    Ok(s) => Ok(s.insert(p)),
                },
            },
            _ => spec_measure_pitches(elems.drop_first()),
        }
    }
}

/// Collect the distinct spelled pitches of a measure's sounded notes.
pub fn extract_pitches_from_measure(measure: &Measure) -> (r: Result<PitchSet, ExtractionError>)
    requires
        measure_wf(*measure),
    ensures
        r is Ok <==> spec_measure_pitches(measure.elements@) is Ok,
        r matches Ok(ps) ==> {
            &&& ps.well_formed()
            &&& ps@ == spec_measure_pitches(measure.elements@).unwrap()
            &&& forall|p| ps@.contains(p) ==> 0 <= #[trigger] pitch_semitone(p) <= 12 * 255 + 11
        },
        r matches Err(e) ==> spec_measure_pitches(measure.elements@) == Result::<
            Set<Pitch>,
            ExtractionError,
        >::Err(e),
{
    let elems = &measure.elements;
    let n = elems.len();
    let mut pitches = PitchSet::new();
    proof {
        assert(elems@.subrange(0, elems@.len() as int) =~= elems@);
        if spec_measure_pitches(measure.elements@) is Ok {
            assert(spec_measure_pitches(measure.elements@).unwrap().union(pitches@)
                =~= spec_measure_pitches(measure.elements@).unwrap());
        }
    }
    let mut i: usize = 0;
    while i < n
        invariant
            0 <= i <= n == elems@.len(),
            elems@ == measure.elements@,
            measure_wf(*measure),
            pitches.well_formed(),
            forall|p| pitches@.contains(p) ==> 0 <= #[trigger] pitch_semitone(p) <= 12 * 255
                + 11,
            spec_measure_pitches(measure.elements@) == match spec_measure_pitches(
                elems@.subrange(i as int, elems@.len() as int),
            ) {
                Result::<Set<Pitch>, ExtractionError>::Err(e) => Result::<
                    Set<Pitch>,
                    ExtractionError,
                >::Err(e),
                Result::<Set<Pitch>, ExtractionError>::Ok(s) => Result::<
                    Set<Pitch>,
                    ExtractionError,
                >::Ok(s.union(pitches@)),
            },
        decreases n - i,
    {
        proof {
            assert(elems@.subrange(i as int, elems@.len() as int)[0] == elems@[i as int]);
            assert(elems@.subrange(i as int, elems@.len() as int).drop_first() =~= elems@
                .subrange(i + 1, elems@.len() as int));
            assert(element_wf(measure.elements@[i as int]));
        }
        if let MeasureElement::Note(NoteEvent::Pitched(sp)) = &elems[i] {
            let note_name = extract_note_name_from_pitch(sp);
            let accidental = match get_accidental_from_pitch(sp) {
                Err(e) => {
                    return Err(e);
                },
                Ok(acc) => acc,
            };
            let p = Pitch::new(note_name, sp.octave, accidental);
            let ghost before = pitches@;
            pitches.insert(p);
            proof {
                let suffix = elems@.subrange(i + 1, elems@.len() as int);
                if spec_measure_pitches(suffix) is Ok {
                    assert(spec_measure_pitches(suffix).unwrap().insert(p).union(before)
                        =~= spec_measure_pitches(suffix).unwrap().union(before.insert(p)));
                }
            }
        }
        i += 1;
    }
    proof {
        assert(elems@.subrange(n as int, elems@.len() as int).len() == 0);
        assert(Set::<Pitch>::empty().union(pitches@) =~= pitches@);
    }
    Ok(pitches)
}

// ---------------------------------------------------------------------------
// Score-level seeds
// ---------------------------------------------------------------------------

/// The score-level default tempo: the first tempo any measure sets,
/// scanning forward from the start, or 120 beats per minute.
pub open spec fn spec_seed_bpm(ms: Seq<Measure>) -> Result<(int, int), ExtractionError>
    decreases ms.len(),
{
    if ms.len() == 0 {
        Ok((120, 1))
    } else {
        match spec_measure_bpm(ms[0]) {
            Err(e) => Err(e),
            Ok(Some(v)) => Ok(v),
            Ok(None) => spec_seed_bpm(ms.drop_first()),
        }
    }
}

/// The score-level default time signature: the first one any measure
/// sets, scanning forward from the start, or 4/4.
pub open spec fn spec_seed_time_sig(ms: Seq<Measure>) -> TimeSignature
    decreases ms.len(),
{
    if ms.len() == 0 {
        TimeSignature { numerator: 4, denominator: 4 }
    } else {
        match spec_measure_time_sig(ms[0].elements@) {
            Some(t) => t,
            None => spec_seed_time_sig(ms.drop_first()),
        }
    }
}

/// Scan the whole score for its default tempo.
pub fn extract_bpm_from_score(score: &Score) -> (r: Result<Rational, ExtractionError>)
    requires
        score_wf(*score),
    ensures
        r is Ok <==> spec_seed_bpm(flat_measures(*score)) is Ok,
        r matches Ok(q) ==> q.well_formed() && q@.0 > 0 && spec_seed_bpm(
            flat_measures(*score),
        ).unwrap().0 > 0 && spec_seed_bpm(flat_measures(*score)).unwrap().1 >= 1 && frac_eq(
            q@,
            spec_seed_bpm(flat_measures(*score)).unwrap(),
        ),
        r matches Err(e) ==> spec_seed_bpm(flat_measures(*score)) == Result::<
            (int, int),
            ExtractionError,
        >::Err(e),
{
    let ghost parts = score.parts@;
    let ghost flat = flat_measures(*score);
    proof {
        crate::score::lemma_flat_prefix_ends(parts);
        assert(flat.subrange(0, flat.len() as int) =~= flat);
    }
    let mut pi: usize = 0;
    while pi < score.parts.len()
        invariant
            score_wf(*score),
            parts == score.parts@,
            flat == flat_measures(*score),
            0 <= pi <= parts.len(),
            spec_seed_bpm(flat) == spec_seed_bpm(
                flat.subrange(crate::score::flat_prefix_len(parts, pi as int), flat.len() as int),
            ),
            0 <= crate::score::flat_prefix_len(parts, pi as int) <= flat.len(),
        decreases parts.len() - pi,
    {
        let measures = &score.parts[pi].measures;
        let mut mi: usize = 0;
        while mi < measures.len()
            invariant
                score_wf(*score),
                parts == score.parts@,
                flat == flat_measures(*score),
                0 <= pi < parts.len(),
                measures@ == parts[pi as int].measures@,
                0 <= mi <= measures@.len(),
                spec_seed_bpm(flat) == spec_seed_bpm(
                    flat.subrange(
                        crate::score::flat_prefix_len(parts, pi as int) + mi,
                        flat.len() as int,
                    ),
                ),
                0 <= crate::score::flat_prefix_len(parts, pi as int) + mi <= flat.len(),
            decreases measures@.len() - mi,
        {
            let ghost k: int = crate::score::flat_prefix_len(parts, pi as int) + mi;
            proof {
                crate::score::lemma_flat_index(parts, pi as int, mi as int);
                assert(flat.subrange(k, flat.len() as int)[0] == flat[k]);
                assert(flat.subrange(k, flat.len() as int).drop_first() =~= flat.subrange(
                    k + 1,
                    flat.len() as int,
                ));
                assert(measure_wf(parts[pi as int].measures@[mi as int]));
            }
            match extract_bpm_from_measure(&measures[mi]) {
                Err(e) => {
                    return Err(e);
                },
                Ok(Some(q)) => {
                    return Ok(q);
                },
                Ok(None) => {},
            }
            mi += 1;
        }
        proof {
            crate::score::lemma_flat_prefix_step(parts, pi as int);
        }
        pi += 1;
    }
    proof {
        crate::score::lemma_flat_prefix_ends(parts);
        assert(flat.subrange(flat.len() as int, flat.len() as int).len() == 0);
    }
    Ok(Rational::from_int(120))
}

/// Scan the whole score for its default time signature.
pub fn extract_time_signature_from_score(score: &Score) -> (r: TimeSignature)
    requires
        score_wf(*score),
    ensures
        r == spec_seed_time_sig(flat_measures(*score)),
        r.well_formed(),
{
    let ghost parts = score.parts@;
    let ghost flat = flat_measures(*score);
    proof {
        crate::score::lemma_flat_prefix_ends(parts);
        assert(flat.subrange(0, flat.len() as int) =~= flat);
    }
    let mut pi: usize = 0;
    while pi < score.parts.len()
        invariant
            score_wf(*score),
            parts == score.parts@,
            flat == flat_measures(*score),
            0 <= pi <= parts.len(),
            spec_seed_time_sig(flat) == spec_seed_time_sig(
                flat.subrange(crate::score::flat_prefix_len(parts, pi as int), flat.len() as int),
            ),
            0 <= crate::score::flat_prefix_len(parts, pi as int) <= flat.len(),
        decreases parts.len() - pi,
    {
        let measures = &score.parts[pi].measures;
        let mut mi: usize = 0;
        while mi < measures.len()
            invariant
                score_wf(*score),
                parts == score.parts@,
                flat == flat_measures(*score),
                0 <= pi < parts.len(),
                measures@ == parts[pi as int].measures@,
                0 <= mi <= measures@.len(),
                spec_seed_time_sig(flat) == spec_seed_time_sig(
                    flat.subrange(
                        crate::score::flat_prefix_len(parts, pi as int) + mi,
                        flat.len() as int,
                    ),
                ),
                0 <= crate::score::flat_prefix_len(parts, pi as int) + mi <= flat.len(),
            decreases measures@.len() - mi,
        {
            let ghost k: int = crate::score::flat_prefix_len(parts, pi as int) + mi;
            proof {
                crate::score::lemma_flat_index(parts, pi as int, mi as int);
                assert(flat.subrange(k, flat.len() as int)[0] == flat[k]);
                assert(flat.subrange(k, flat.len() as int).drop_first() =~= flat.subrange(
                    k + 1,
                    flat.len() as int,
                ));
            }
            if let Some(t) = extract_time_signature_from_measure(&measures[mi]) {
                return t;
            }
            mi += 1;
        }
        proof {
            crate::score::lemma_flat_prefix_step(parts, pi as int);
        }
        pi += 1;
    }
    proof {
        crate::score::lemma_flat_prefix_ends(parts);
        assert(flat.subrange(flat.len() as int, flat.len() as int).len() == 0);
    }
    TimeSignature::new(4, 4)
}

// ---------------------------------------------------------------------------
// The extraction fold
// ---------------------------------------------------------------------------

/// The whole extraction, one measure after the other: each measure may
/// set the tempo and the time signature, which then hold from that
/// measure on; its note count and pitch set are recorded with the state
/// in force.
pub open spec fn spec_extract_fold(
    ms: Seq<Measure>,
    bpm: (int, int),
    ts: TimeSignature,
) -> Result<Seq<SpecMeasure>, ExtractionError>
    decreases ms.len(),
{
    if ms.len() == 0 {
        Ok(Seq::empty())
    } else {
        match spec_measure_bpm(ms[0]) {
            Err(e) => Err(e),
            Ok(ob) => {
                let bpm1 = match ob {
                    Some(v) => v,
                    None => bpm,
                };
                let ts1 = match spec_measure_time_sig(ms[0].elements@) {
                    Some(t) => t,
                    None => ts,
                };
                match spec_measure_pitches(ms[0].elements@) {
                    Err(e) => Err(e),
                    Ok(ps) => match spec_extract_fold(ms.drop_first(), bpm1, ts1) {
                        Err(e) => Err(e),
                        Ok(rest) => Ok(
                            seq![(spec_note_count(ms[0].elements@), bpm1, ts1, ps)] + rest,
                        ),
                    },
                }
            },
        }
    }
}

/// What extraction returns on a whole score: the fold over all its
/// measures, seeded with the score-level defaults.
pub open spec fn spec_extract(score: Score) -> Result<Seq<SpecMeasure>, ExtractionError> {
    let ms = flat_measures(score);
    match spec_seed_bpm(ms) {
        Err(e) => Err(e),
        Ok(b0) => spec_extract_fold(ms, b0, spec_seed_time_sig(ms)),
    }
}

/// Walk the score once and emit one record per measure, in document
/// order. The first unsupported notation aborts the whole piece.
pub fn extract_measure_data(score: &Score) -> (r: Result<Vec<MeasureData>, ExtractionError>)
    requires
        score_wf(*score),
    ensures
        r is Ok <==> spec_extract(*score) is Ok,
        r matches Ok(v) ==> {
            let sv = spec_extract(*score).unwrap();
            &&& v@.len() == sv.len()
            &&& forall|j: int| 0 <= j < sv.len() ==> {
                &&& (#[trigger] v@[j]).well_formed()
                &&& v@[j].note_count as int == sv[j].0
                &&& frac_eq(v@[j].tempo_bpm@, sv[j].1)
                &&& v@[j].time_signature == sv[j].2
                &&& v@[j].pitches@ == sv[j].3
            }
        },
        r matches Err(e) ==> spec_extract(*score) == Result::<
            Seq<SpecMeasure>,
            ExtractionError,
        >::Err(e),
{
    let ghost parts = score.parts@;
    let ghost flat = flat_measures(*score);

    let mut current_bpm = match extract_bpm_from_score(score) {
        Err(e) => {
            return Err(e);
        },
        Ok(q) => q,
    };
    let ghost mut gbpm: (int, int) = spec_seed_bpm(flat).unwrap();
    let mut current_time_sig = extract_time_signature_from_score(score);

    let mut measure_data: Vec<MeasureData> = Vec::new();
    let ghost mut out_spec: Seq<SpecMeasure> = Seq::empty();

    proof {
        crate::score::lemma_flat_prefix_ends(parts);
        assert(flat.subrange(0, flat.len() as int) =~= flat);
        if spec_extract_fold(flat, gbpm, current_time_sig) is Ok {
            assert(out_spec + spec_extract_fold(flat, gbpm, current_time_sig).unwrap()
                =~= spec_extract_fold(flat, gbpm, current_time_sig).unwrap());
        }
    }

    let mut pi: usize = 0;
    while pi < score.parts.len()
        invariant
            score_wf(*score),
            parts == score.parts@,
            flat == flat_measures(*score),
            0 <= pi <= parts.len(),
            0 <= crate::score::flat_prefix_len(parts, pi as int) <= flat.len(),
            current_bpm.well_formed(),
            current_bpm@.0 > 0,
            frac_eq(current_bpm@, gbpm),
            gbpm.0 > 0,
            gbpm.1 >= 1,
            current_time_sig.well_formed(),
            measure_data@.len() == out_spec.len(),
            forall|j: int| 0 <= j < out_spec.len() ==> {
                &&& (#[trigger] measure_data@[j]).well_formed()
                &&& measure_data@[j].note_count as int == out_spec[j].0
                &&& frac_eq(measure_data@[j].tempo_bpm@, out_spec[j].1)
                &&& measure_data@[j].time_signature == out_spec[j].2
                &&& measure_data@[j].pitches@ == out_spec[j].3
            },
            spec_extract(*score) == match spec_extract_fold(
                flat.subrange(crate::score::flat_prefix_len(parts, pi as int), flat.len() as int),
                gbpm,
                current_time_sig,
            ) {
                Result::<Seq<SpecMeasure>, ExtractionError>::Err(e) => Result::<
                    Seq<SpecMeasure>,
                    ExtractionError,
                >::Err(e),
                Result::<Seq<SpecMeasure>, ExtractionError>::Ok(rest) => Result::<
                    Seq<SpecMeasure>,
                    ExtractionError,
                >::Ok(out_spec + rest),
            },
        decreases parts.len() - pi,
    {
        let measures = &score.parts[pi].measures;
        let mut mi: usize = 0;
        while mi < measures.len()
            invariant
                score_wf(*score),
                parts == score.parts@,
                flat == flat_measures(*score),
                0 <= pi < parts.len(),
                measures@ == parts[pi as int].measures@,
                0 <= mi <= measures@.len(),
                0 <= crate::score::flat_prefix_len(parts, pi as int) + mi <= flat.len(),
                current_bpm.well_formed(),
                current_bpm@.0 > 0,
                frac_eq(current_bpm@, gbpm),
                gbpm.0 > 0,
                gbpm.1 >= 1,
                current_time_sig.well_formed(),
                measure_data@.len() == out_spec.len(),
                forall|j: int| 0 <= j < out_spec.len() ==> {
                    &&& (#[trigger] measure_data@[j]).well_formed()
                    &&& measure_data@[j].note_count as int == out_spec[j].0
                    &&& frac_eq(measure_data@[j].tempo_bpm@, out_spec[j].1)
                    &&& measure_data@[j].time_signature == out_spec[j].2
                    &&& measure_data@[j].pitches@ == out_spec[j].3
                },
                spec_extract(*score) == match spec_extract_fold(
                    flat.subrange(
                        crate::score::flat_prefix_len(parts, pi as int) + mi,
                        flat.len() as int,
                    ),
                    gbpm,
                    current_time_sig,
                ) {
                    Result::<Seq<SpecMeasure>, ExtractionError>::Err(e) => Result::<
                        Seq<SpecMeasure>,
                        ExtractionError,
                    >::Err(e),
                    Result::<Seq<SpecMeasure>, ExtractionError>::Ok(rest) => Result::<
                        Seq<SpecMeasure>,
                        ExtractionError,
                    >::Ok(out_spec + rest),
                },
            decreases measures@.len() - mi,
        {
            let ghost k: int = crate::score::flat_prefix_len(parts, pi as int) + mi;
            proof {
                crate::score::lemma_flat_index(parts, pi as int, mi as int);
                assert(flat.subrange(k, flat.len() as int)[0] == flat[k]);
                assert(flat.subrange(k, flat.len() as int).drop_first() =~= flat.subrange(
                    k + 1,
                    flat.len() as int,
                ));
                assert(measure_wf(parts[pi as int].measures@[mi as int]));
            }
            let measure = &measures[mi];

            match extract_bpm_from_measure(measure) {
                Err(e) => {
                    return Err(e);
                },
                Ok(Some(q)) => {
                    current_bpm = q;
                    proof {
                        gbpm = spec_measure_bpm(flat[k]).unwrap().unwrap();
                    }
                },
                Ok(None) => {},
            }

            if let Some(t) = extract_time_signature_from_measure(measure) {
                current_time_sig = t;
            }

            let note_count = get_nr_notes_in_measure(measure);
            let pitches = match extract_pitches_from_measure(measure) {
                Err(e) => {
                    return Err(e);
                },
                Ok(ps) => ps,
            };
            let ghost entry: SpecMeasure = (
                spec_note_count(flat[k].elements@),
                gbpm,
                current_time_sig,
                pitches@,
            );

            measure_data.push(MeasureData {
                note_count,
                tempo_bpm: current_bpm,
                time_signature: current_time_sig,
                pitches,
            });
            proof {
                let suffix = flat.subrange(k + 1, flat.len() as int);
                if spec_extract_fold(suffix, gbpm, current_time_sig) is Ok {
                    assert(out_spec + (seq![entry] + spec_extract_fold(
                        suffix,
                        gbpm,
                        current_time_sig,
                    ).unwrap()) =~= (out_spec + seq![entry]) + spec_extract_fold(
                        suffix,
                        gbpm,
                        current_time_sig,
                    ).unwrap());
                }
                out_spec = out_spec + seq![entry];
            }
            mi += 1;
        }
        proof {
            crate::score::lemma_flat_prefix_step(parts, pi as int);
        }
        pi += 1;
    }
    proof {
        crate::score::lemma_flat_prefix_ends(parts);
        assert(flat.subrange(flat.len() as int, flat.len() as int).len() == 0);
        assert(out_spec + Seq::<SpecMeasure>::empty() =~= out_spec);
    }
    Ok(measure_data)
}

} // verus!
