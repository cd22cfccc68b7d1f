//! Pitch and key diversity over a sequence of measures: the union of
//! all measures' pitch sets, counted once as spelled pitches and once
//! as the physical keys they sound.

use vstd::prelude::*;
use crate::analysis::diversity_metrics::DiversityMetrics;
use crate::analysis::note_density::all_measures_wf;
use crate::model::measure_data::MeasureData;
use crate::model::piano_key::{spec_key_of, PianoKey};
use crate::model::pitch::Pitch;
use crate::model::pitch_set::{lemma_key_set_len_bound, lemma_pitch_set_len_bound,
    lemma_push_to_set, KeySet, PitchSet};

verus! {

/// The union of the pitch sets of a run of measures.
pub open spec fn pitches_union(s: Seq<MeasureData>) -> Set<Pitch>
    decreases s.len(),
{
    if s.len() == 0 {
        Set::empty()
    } else {
        pitches_union(s.drop_last()).union(s.last().pitches@)
    }
}

/// The physical keys a set of spelled pitches sounds.
pub open spec fn keys_of(pitches: Set<Pitch>) -> Set<PianoKey> {
    pitches.map(|p: Pitch| spec_key_of(p))
}

/// Reduce a sequence of measures to its diversity metrics: the number
/// of distinct spelled pitches over all measures, and the number of
/// distinct piano keys they sound — enharmonic spellings counted once.
pub fn calculate_diversity_metrics(measure_data: &Vec<MeasureData>) -> (r: DiversityMetrics)
    requires
        all_measures_wf(measure_data@),
    ensures
        r.total_unique_pitches == pitches_union(measure_data@).len(),
        r.total_unique_keys == keys_of(pitches_union(measure_data@)).len(),
{
    let ghost s = measure_data@;
    let mut all_pitches = PitchSet::new();
    let mut all_keys = KeySet::new();

    proof {
        assert(s.subrange(0, 0) =~= Seq::<MeasureData>::empty());
        assert(all_keys@ =~= keys_of(all_pitches@));
    }
    let mut i: usize = 0;
    while i < measure_data.len()
        invariant
            s == measure_data@,
            all_measures_wf(s),
            0 <= i <= s.len(),
            all_pitches.well_formed(),
            all_keys.well_formed(),
            all_pitches@ == pitches_union(s.subrange(0, i as int)),
            all_keys@ == keys_of(all_pitches@),
        decreases s.len() - i,
    {
        let m = &measure_data[i];
        proof {
            assert(s[i as int].well_formed());
            m.pitches.lemma_view_is_elements();
        }
        let ghost melems = m.pitches.elements();
        let n = m.pitches.len();
        let mut j: usize = 0;
        proof {
            assert(melems.subrange(0, 0).to_set() =~= Set::<Pitch>::empty());
            assert(all_pitches@.union(melems.subrange(0, 0).to_set()) =~= all_pitches@);
        }
        let ghost before = all_pitches@;
        while j < n
            invariant
                s == measure_data@,
                all_measures_wf(s),
                0 <= i < s.len(),
                melems == s[i as int].pitches.elements(),
                measure_data@[i as int].pitches.elements() == melems,
                n == melems.len(),
                0 <= j <= n,
                all_pitches.well_formed(),
                all_keys.well_formed(),
                all_pitches@ == before.union(melems.subrange(0, j as int).to_set()),
                before == pitches_union(s.subrange(0, i as int)),
                all_keys@ == keys_of(all_pitches@),
            decreases n - j,
        {
            let p = measure_data[i].pitches.get(j);
            proof {
                assert(s[i as int].pitches@.contains(p));
                assert(melems.subrange(0, j + 1) =~= melems.subrange(0, j as int).push(p));
                lemma_push_to_set(melems.subrange(0, j as int), p);
                assert(before.union(melems.subrange(0, j + 1).to_set()) =~= before.union(
                    melems.subrange(0, j as int).to_set(),
                ).insert(p));
            }
            let ghost pitches_before_insert = all_pitches@;
            all_pitches.insert(p);
            let key = PianoKey::from_pitch(&p);
            all_keys.insert(key);
            proof {
                pitches_before_insert.lemma_set_map_insert_commute(p, |q: Pitch| spec_key_of(q));
                assert(keys_of(pitches_before_insert.insert(p)) =~= keys_of(
                    pitches_before_insert,
                ).insert(spec_key_of(p)));
            }
            j += 1;
        }
        proof {
            assert(melems.subrange(0, n as int) =~= melems);
            assert(melems.to_set() == s[i as int].pitches@);
            assert(s.subrange(0, i + 1).drop_last() =~= s.subrange(0, i as int));
            assert(s.subrange(0, i + 1).last() == s[i as int]);
        }
        i += 1;
    }
    proof {
        assert(s.subrange(0, s.len() as int) =~= s);
    }
    let unique_pitches = all_pitches.len();
    let unique_keys = all_keys.len();
    proof {
        lemma_pitch_set_len_bound(all_pitches@);
        lemma_key_set_len_bound(all_keys@);
    }
    DiversityMetrics {
        total_unique_pitches: unique_pitches as u32,
        total_unique_keys: unique_keys as u32,
    }
}

} // verus!
