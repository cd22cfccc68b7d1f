use musicxml_analysis::extraction::musicxml::{
    extract_bpm_from_beat_based, extract_bpm_from_measure, extract_bpm_from_metronome,
    extract_bpm_from_score, extract_measure_data, extract_pitches_from_measure,
    extract_time_signature_from_measure, extract_time_signature_from_score,
    get_nr_notes_in_measure, ExtractionError,
};
use musicxml_analysis::model::{Accidental, MeasureData, NoteName, Pitch, PitchSet, TimeSignature};
use musicxml_analysis::score::{
    AttributesElement, BeatBased, BeatEquation, BeatUnit, DirectionContent, DirectionElement,
    Measure, MeasureElement, Metronome, NoteEvent, Part, Score, ScorePitch, Step,
};
use musicxml_analysis::Rational;

fn score_with_measures(measures: Vec<Measure>) -> Score {
    Score { parts: vec![Part { measures }] }
}

fn note(step: Step, octave: u8) -> MeasureElement {
    MeasureElement::Note(NoteEvent::Pitched(ScorePitch { step, octave, alter: None }))
}

fn altered_note(step: Step, octave: u8, alter: i8) -> MeasureElement {
    MeasureElement::Note(NoteEvent::Pitched(ScorePitch { step, octave, alter: Some(alter) }))
}

fn rest() -> MeasureElement {
    MeasureElement::Note(NoteEvent::Unpitched)
}

fn beat_based(beat_unit: BeatUnit, dotted: bool, per_minute: &str) -> BeatBased {
    BeatBased {
        beat_unit,
        dotted,
        equation: BeatEquation::PerMinute(per_minute.as_bytes().to_vec()),
    }
}

fn metronome(beat_unit: BeatUnit, per_minute: &str) -> MeasureElement {
    MeasureElement::Direction(DirectionElement {
        sound_tempo: None,
        direction_types: vec![DirectionContent::Metronome(Metronome::BeatBased(beat_based(
            beat_unit, false, per_minute,
        )))],
    })
}

fn dotted_metronome(beat_unit: BeatUnit, per_minute: &str) -> MeasureElement {
    MeasureElement::Direction(DirectionElement {
        sound_tempo: None,
        direction_types: vec![DirectionContent::Metronome(Metronome::BeatBased(beat_based(
            beat_unit, true, per_minute,
        )))],
    })
}

fn time_signature(beats: &str, beat_type: &str) -> MeasureElement {
    MeasureElement::Attributes(AttributesElement {
        times: vec![musicxml_analysis::score::TimeSpec {
            beats: beats.as_bytes().to_vec(),
            beat_type: beat_type.as_bytes().to_vec(),
        }],
    })
}

fn pitch_set(pitches: Vec<Pitch>) -> PitchSet {
    let mut set = PitchSet::new();
    for p in pitches {
        set.insert(p);
    }
    set
}

#[test]
fn test_extract_measure_data_returns_empty_vec_when_no_measures() {
    // Arrange
    let score = score_with_measures(vec![]);

    // Act
    let actual_measure_data = extract_measure_data(&score).unwrap();

    // Assert
    assert!(actual_measure_data.is_empty());
}

#[test]
fn test_extract_measure_data_single_measure() {
    // Arrange
    let score = score_with_measures(vec![Measure {
        elements: vec![note(Step::C, 4), note(Step::D, 4)],
    }]);

    // Act
    let actual = extract_measure_data(&score).unwrap();

    // Assert
    let expected = vec![MeasureData {
        note_count: 2,
        tempo_bpm: Rational::from_int(120),         // Default
        time_signature: TimeSignature::new(4, 4),   // Default
        pitches: pitch_set(vec![
            Pitch::new(NoteName::C, 4, Accidental::Natural),
            Pitch::new(NoteName::D, 4, Accidental::Natural),
        ]),
    }];
    assert_eq!(actual, expected);
}

#[test]
fn test_extract_measure_data_two_measures() {
    // Arrange
    let score = score_with_measures(vec![
        Measure { elements: vec![note(Step::C, 4)] },
        Measure { elements: vec![note(Step::D, 4), note(Step::E, 4)] },
    ]);

    // Act
    let actual = extract_measure_data(&score).unwrap();

    // Assert
    let expected = vec![
        MeasureData {
            note_count: 1,
            tempo_bpm: Rational::from_int(120),
            time_signature: TimeSignature::new(4, 4),
            pitches: pitch_set(vec![Pitch::new(NoteName::C, 4, Accidental::Natural)]),
        },
        MeasureData {
            note_count: 2,
            tempo_bpm: Rational::from_int(120),
            time_signature: TimeSignature::new(4, 4),
            pitches: pitch_set(vec![
                Pitch::new(NoteName::D, 4, Accidental::Natural),
                Pitch::new(NoteName::E, 4, Accidental::Natural),
            ]),
        },
    ];
    assert_eq!(actual, expected);
}

#[test]
fn test_extract_measure_data_with_metronome_direction() {
    // Arrange
    let score = score_with_measures(vec![Measure {
        elements: vec![metronome(BeatUnit::Quarter, "60")],
    }]);

    // Act
    let actual = extract_measure_data(&score).unwrap();

    // Assert
    let expected = vec![MeasureData {
        note_count: 0,
        tempo_bpm: Rational::from_int(60),
        time_signature: TimeSignature::new(4, 4),
        pitches: PitchSet::new(),
    }];
    assert_eq!(actual, expected);
}

#[test]
fn test_extract_measure_data_with_metronome_120_bpm_and_tempo_60bpm() {
    // Arrange: one direction carrying both an explicit sound tempo of
    // 60 and a metronome mark implying 120.
    let score = score_with_measures(vec![Measure {
        elements: vec![MeasureElement::Direction(DirectionElement {
            sound_tempo: Some(Rational::from_int(60)),
            direction_types: vec![DirectionContent::Metronome(Metronome::BeatBased(
                beat_based(BeatUnit::Quarter, false, "120"),
            ))],
        })],
    }]);

    // Act
    let actual = extract_measure_data(&score).unwrap();

    // Assert: the explicit tempo wins.
    let expected = vec![MeasureData {
        note_count: 0,
        tempo_bpm: Rational::from_int(60),
        time_signature: TimeSignature::new(4, 4),
        pitches: PitchSet::new(),
    }];
    assert_eq!(actual, expected);
}

#[test]
fn test_extract_measure_data_tempo_change() {
    // Arrange
    let score = score_with_measures(vec![
        Measure { elements: vec![metronome(BeatUnit::Quarter, "120")] },
        Measure { elements: vec![metronome(BeatUnit::Quarter, "60")] },
    ]);

    // Act
    let result = extract_measure_data(&score).unwrap();

    // Assert
    assert_eq!(result.len(), 2);
    assert_eq!(result[0].tempo_bpm, Rational::from_int(120));
    assert_eq!(result[1].tempo_bpm, Rational::from_int(60));
}

#[test]
fn test_extract_measure_data_time_signature_change() {
    // Arrange
    let score = score_with_measures(vec![
        Measure { elements: vec![time_signature("4", "4")] },
        Measure { elements: vec![time_signature("3", "4")] },
    ]);

    // Act
    let result = extract_measure_data(&score).unwrap();

    // Assert
    assert_eq!(result.len(), 2);
    assert_eq!(result[0].time_signature, TimeSignature::new(4, 4));
    assert_eq!(result[1].time_signature, TimeSignature::new(3, 4));
}

#[test]
fn test_extract_measure_data_excludes_rests() {
    // Arrange
    let score = score_with_measures(vec![Measure { elements: vec![rest()] }]);

    // Act
    let actual = extract_measure_data(&score).unwrap();

    // Assert
    let expected = vec![MeasureData {
        note_count: 0,
        tempo_bpm: Rational::from_int(120),
        time_signature: TimeSignature::new(4, 4),
        pitches: PitchSet::new(),
    }];
    assert_eq!(actual, expected);
}

#[test]
fn test_extract_measure_data_with_half_note_metronome() {
    // Arrange
    let score = score_with_measures(vec![Measure {
        elements: vec![metronome(BeatUnit::Half, "60")],
    }]);

    // Act
    let actual = extract_measure_data(&score).unwrap();

    // Assert
    let expected = vec![MeasureData {
        note_count: 0,
        tempo_bpm: Rational::from_int(120),
        time_signature: TimeSignature::new(4, 4),
        pitches: PitchSet::new(),
    }];
    assert_eq!(actual, expected);
}

#[test]
fn test_extract_measure_data_with_dotted_half_note_metronome() {
    // Arrange
    let score = score_with_measures(vec![Measure {
        elements: vec![
            time_signature("3", "4"),
            dotted_metronome(BeatUnit::Half, "60"),
        ],
    }]);

    // Act
    let actual = extract_measure_data(&score).unwrap();

    // Assert: 60 * 2 * 1.5 = 180 quarter-note beats per minute.
    let expected = vec![MeasureData {
        note_count: 0,
        tempo_bpm: Rational::from_int(180),
        time_signature: TimeSignature::new(3, 4),
        pitches: PitchSet::new(),
    }];
    assert_eq!(actual, expected);
}

#[test]
fn test_extract_measure_data_carries_state_across_parts() {
    // A tempo set in the first part persists into the second part.
    let score = Score {
        parts: vec![
            Part {
                measures: vec![Measure {
                    elements: vec![metronome(BeatUnit::Quarter, "90"), note(Step::A, 3)],
                }],
            },
            Part { measures: vec![Measure { elements: vec![note(Step::B, 3)] }] },
        ],
    };

    let result = extract_measure_data(&score).unwrap();

    assert_eq!(result.len(), 2);
    assert_eq!(result[0].tempo_bpm, Rational::from_int(90));
    assert_eq!(result[1].tempo_bpm, Rational::from_int(90));
}

#[test]
fn test_extract_measure_data_seeds_tempo_from_later_measure() {
    // The first explicit tempo anywhere seeds the earlier measures.
    let score = score_with_measures(vec![
        Measure { elements: vec![note(Step::C, 4)] },
        Measure { elements: vec![metronome(BeatUnit::Quarter, "72")] },
    ]);

    let result = extract_measure_data(&score).unwrap();

    assert_eq!(result.len(), 2);
    assert_eq!(result[0].tempo_bpm, Rational::from_int(72));
    assert_eq!(result[1].tempo_bpm, Rational::from_int(72));
}

#[test]
fn test_extract_measure_data_fractional_per_minute() {
    let score = score_with_measures(vec![Measure {
        elements: vec![metronome(BeatUnit::Quarter, "63.5")],
    }]);

    let result = extract_measure_data(&score).unwrap();

    assert_eq!(result[0].tempo_bpm, Rational::new(127, 2));
}

#[test]
fn test_extract_measure_data_unsupported_alteration() {
    let score = score_with_measures(vec![Measure {
        elements: vec![altered_note(Step::C, 4, 3)],
    }]);

    let result = extract_measure_data(&score);

    assert_eq!(result, Err(ExtractionError::UnsupportedAlteration));
}

#[test]
fn test_extract_measure_data_unsupported_beat_unit() {
    let score = score_with_measures(vec![Measure {
        elements: vec![metronome(BeatUnit::Other, "60")],
    }]);

    let result = extract_measure_data(&score);

    assert_eq!(result, Err(ExtractionError::UnsupportedBeatUnit));
}

#[test]
fn test_extract_measure_data_non_numeric_per_minute() {
    let score = score_with_measures(vec![Measure {
        elements: vec![metronome(BeatUnit::Quarter, "fast")],
    }]);

    let result = extract_measure_data(&score);

    assert_eq!(result, Err(ExtractionError::NonNumericPerMinute));
}

#[test]
fn test_extract_measure_data_note_relation_equation() {
    let score = score_with_measures(vec![Measure {
        elements: vec![MeasureElement::Direction(DirectionElement {
            sound_tempo: None,
            direction_types: vec![DirectionContent::Metronome(Metronome::BeatBased(
                BeatBased {
                    beat_unit: BeatUnit::Quarter,
                    dotted: false,
                    equation: BeatEquation::NoteRelation,
                },
            ))],
        })],
    }]);

    let result = extract_measure_data(&score);

    assert_eq!(result, Err(ExtractionError::NonNumericPerMinute));
}

#[test]
fn test_extract_measure_data_unsupported_metronome_content() {
    let score = score_with_measures(vec![Measure {
        elements: vec![MeasureElement::Direction(DirectionElement {
            sound_tempo: None,
            direction_types: vec![DirectionContent::Metronome(Metronome::Other)],
        })],
    }]);

    let result = extract_measure_data(&score);

    assert_eq!(result, Err(ExtractionError::UnsupportedMetronome));
}

#[test]
fn test_extract_bpm_from_metronome_dotted_half() {
    // Dotted half at 60 per minute: 60 * 2 * 1.5 = 180.
    let mark = Metronome::BeatBased(beat_based(BeatUnit::Half, true, "60"));

    let result = extract_bpm_from_metronome(&mark).unwrap();

    assert_eq!(result, Rational::from_int(180));
}

#[test]
fn test_extract_bpm_from_beat_based_quarter_is_verbatim() {
    let bb = beat_based(BeatUnit::Quarter, false, "97");

    let result = extract_bpm_from_beat_based(&bb).unwrap();

    assert_eq!(result, Rational::from_int(97));
}

#[test]
fn test_extract_bpm_from_measure_prefers_sound_tempo_across_directions() {
    // A metronome in an earlier direction, an explicit tempo later in
    // the same measure: the explicit tempo wins.
    let measure = Measure {
        elements: vec![
            metronome(BeatUnit::Quarter, "120"),
            MeasureElement::Direction(DirectionElement {
                sound_tempo: Some(Rational::from_int(60)),
                direction_types: vec![],
            }),
        ],
    };

    let result = extract_bpm_from_measure(&measure).unwrap();

    assert_eq!(result, Some(Rational::from_int(60)));
}

#[test]
fn test_extract_time_signature_from_measure_unparsable_is_absent() {
    let measure = Measure { elements: vec![time_signature("three", "4")] };

    assert_eq!(extract_time_signature_from_measure(&measure), None);
}

#[test]
fn test_extract_time_signature_from_measure_zero_is_absent() {
    let measure = Measure { elements: vec![time_signature("0", "4")] };

    assert_eq!(extract_time_signature_from_measure(&measure), None);
}

#[test]
fn test_extract_time_signature_from_score_defaults_to_four_four() {
    let score = score_with_measures(vec![Measure { elements: vec![note(Step::C, 4)] }]);

    assert_eq!(extract_time_signature_from_score(&score), TimeSignature::new(4, 4));
}

#[test]
fn test_extract_bpm_from_score_defaults_to_120() {
    let score = score_with_measures(vec![Measure { elements: vec![note(Step::C, 4)] }]);

    assert_eq!(extract_bpm_from_score(&score).unwrap(), Rational::from_int(120));
}

#[test]
fn test_get_nr_notes_in_measure_counts_only_pitched_notes() {
    let measure = Measure {
        elements: vec![note(Step::C, 4), rest(), note(Step::E, 4), time_signature("4", "4")],
    };

    assert_eq!(get_nr_notes_in_measure(&measure), 2);
}

#[test]
fn test_extract_pitches_from_measure_deduplicates() {
    let measure = Measure {
        elements: vec![note(Step::C, 4), note(Step::C, 4), note(Step::G, 4)],
    };

    let pitches = extract_pitches_from_measure(&measure).unwrap();

    assert_eq!(pitches, pitch_set(vec![
        Pitch::new(NoteName::C, 4, Accidental::Natural),
        Pitch::new(NoteName::G, 4, Accidental::Natural),
    ]));
}

#[test]
fn test_sound_tempo_prevents_metronome_error_in_same_measure() {
    // An explicit sound tempo wins over the metronome marks of the
    // measure, so an unsupported mark after it never resolves.
    let score = score_with_measures(vec![Measure {
        elements: vec![
            MeasureElement::Direction(DirectionElement {
                sound_tempo: Some(Rational::from_int(60)),
                direction_types: vec![],
            }),
            metronome(BeatUnit::Other, "60"),
        ],
    }]);

    let result = extract_measure_data(&score).unwrap();

    assert_eq!(result[0].tempo_bpm, Rational::from_int(60));
}

#[test]
fn test_zero_per_minute_is_treated_as_absent() {
    // A metronome resolving to zero cannot set the tempo (it must stay
    // positive); the scan continues and finds the next mark.
    let score = score_with_measures(vec![Measure {
        elements: vec![
            metronome(BeatUnit::Quarter, "0"),
            metronome(BeatUnit::Quarter, "84"),
        ],
    }]);

    let result = extract_measure_data(&score).unwrap();

    assert_eq!(result[0].tempo_bpm, Rational::from_int(84));
}

#[test]
fn test_non_positive_sound_tempo_is_ignored() {
    // A zero sound tempo is treated as absent; a later metronome
    // decides.
    let score = score_with_measures(vec![Measure {
        elements: vec![
            MeasureElement::Direction(DirectionElement {
                sound_tempo: Some(Rational::from_int(0)),
                direction_types: vec![],
            }),
            metronome(BeatUnit::Quarter, "96"),
        ],
    }]);

    let result = extract_measure_data(&score).unwrap();

    assert_eq!(result[0].tempo_bpm, Rational::from_int(96));
}

#[test]
fn test_attributes_with_no_time_entries_is_skipped() {
    // An attributes block without time entries does not decide; a
    // later one does.
    let score = score_with_measures(vec![Measure {
        elements: vec![
            MeasureElement::Attributes(AttributesElement { times: vec![] }),
            time_signature("6", "8"),
        ],
    }]);

    let result = extract_measure_data(&score).unwrap();

    assert_eq!(result[0].time_signature, TimeSignature::new(6, 8));
}
