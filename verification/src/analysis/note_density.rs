//! Note density over a sequence of measures: total notes, exact
//! duration-weighted average, and the peak measure.

use vstd::prelude::*;
use crate::analysis::density_metrics::DensityMetrics;
use crate::model::measure_data::MeasureData;
use crate::rational::{frac_add, frac_div, frac_eq, frac_le, frac_lt, frac_mul, frac_wf,
    spec_normalize, Rational};
use crate::rational::{lemma_frac_add_le_compat, lemma_frac_add_sign, lemma_frac_cmp_congr,
    lemma_frac_div_congr_right, lemma_frac_div_le_mul, lemma_frac_eq_sign, lemma_frac_eq_trans,
    lemma_frac_le_lt_trans, lemma_frac_mul_add_distrib, lemma_norm_frac};

verus! {

/// Every record satisfies the data-model invariant.
pub open spec fn all_measures_wf(s: Seq<MeasureData>) -> bool {
    forall|i: int| 0 <= i < s.len() ==> (#[trigger] s[i]).well_formed()
}

/// Total number of sounded notes.
pub open spec fn total_notes(s: Seq<MeasureData>) -> int
    decreases s.len(),
{
    if s.len() == 0 {
        0
    } else {
        total_notes(s.drop_last()) + s.last().note_count
    }
}

/// Exact total duration in seconds, as a specification fraction.
pub open spec fn total_duration(s: Seq<MeasureData>) -> (int, int)
    decreases s.len(),
{
    if s.len() == 0 {
        (0, 1)
    } else {
        frac_add(total_duration(s.drop_last()), s.last().duration_frac())
    }
}

/// The running state of the density reduction, after the checked
/// arithmetic the implementation performs: reduced total duration,
/// reduced peak density, 1-based peak index (0 while no measure has
/// been seen), total notes. The first measure always sets the peak;
/// after that only a strictly greater density displaces it, so ties
/// resolve to the earliest measure. `None` when a reduced
/// intermediate value leaves `i64`.
pub open spec fn spec_density_state(s: Seq<MeasureData>) -> Option<
    ((int, int), (int, int), int, int),
>
    decreases s.len(),
{
    if s.len() == 0 {
        Some(((0, 1), (0, 1), 0, 0))
    } else {
        match spec_density_state(s.drop_last()) {
            None => None,
            Some((dacc, pk, pidx, notes)) => {
                let m = s.last();
                match spec_normalize(m.duration_frac()) {
                    None => None,
                    Some(d) => match spec_normalize(frac_add(dacc, d)) {
                        None => None,
                        Some(dacc2) => match spec_normalize(
                            frac_div((m.note_count as int, 1), d),
                        ) {
                            None => None,
                            Some(dens) => Some(
                                (
                                    dacc2,
                                    if pidx == 0 || frac_lt(pk, dens) {
                                        dens
                                    } else {
                                        pk
                                    },
                                    if pidx == 0 || frac_lt(pk, dens) {
                                        s.len() as int
                                    } else {
                                        pidx
                                    },
                                    notes + m.note_count,
                                ),
                            ),
                        },
                    },
                }
            },
        }
    }
}

/// What the density reduction returns: the state over all measures,
/// with the average appended; `None` when a value cannot be
/// represented (including a total note count beyond `u32`).
pub open spec fn spec_calculate_density(s: Seq<MeasureData>) -> Option<
    ((int, int), (int, int), int, int),
>
{
    match spec_density_state(s) {
        None => None,
        Some((dacc, pk, pidx, notes)) => if notes > u32::MAX {
            None
        } else if s.len() == 0 {
            Some(((0, 1), pk, pidx, notes))
        } else {
            match spec_normalize(frac_div((notes, 1), dacc)) {
                None => None,
                Some(avg) => Some((avg, pk, pidx, notes)),
            }
        },
    }
}

/// A well-formed measure has a positive duration and a nonnegative
/// density.
proof fn lemma_measure_fracs(m: MeasureData)
    requires
        m.well_formed(),
    ensures
        m.duration_frac().0 > 0,
        m.duration_frac().1 > 0,
        m.density_frac().0 >= 0,
        m.density_frac().1 > 0,
        frac_eq(frac_div((m.note_count as int, 1), m.duration_frac()), m.density_frac()),
{
    assert(m.duration_frac().0 > 0 && m.density_frac().1 > 0) by (nonlinear_arith)
        requires
            m.duration_frac().0 == 60 * (m.time_signature.numerator as int) * m.tempo_bpm@.1,
            m.density_frac().1 == 60 * (m.time_signature.numerator as int) * m.tempo_bpm@.1,
            m.time_signature.numerator >= 1,
            m.tempo_bpm@.1 >= 1,
    {}
    assert(m.density_frac().0 >= 0) by (nonlinear_arith)
        requires
            m.density_frac().0 == (m.note_count as int) * m.tempo_bpm@.0,
            m.note_count >= 0,
            m.tempo_bpm@.0 > 0,
    {}
    assert((m.note_count as int) * m.duration_frac().1 * m.density_frac().1
        == m.density_frac().0 * (1int * m.duration_frac().0)) by (nonlinear_arith)
        requires
            m.duration_frac().0 == 60 * (m.time_signature.numerator as int) * m.tempo_bpm@.1,
            m.duration_frac().1 == m.tempo_bpm@.0,
            m.density_frac().0 == (m.note_count as int) * m.tempo_bpm@.0,
            m.density_frac().1 == 60 * (m.time_signature.numerator as int) * m.tempo_bpm@.1,
    {}
}

/// The total duration is a positive fraction once a measure exists.
pub proof fn lemma_total_duration_pos(s: Seq<MeasureData>)
    requires
        all_measures_wf(s),
    ensures
        frac_wf(total_duration(s)),
        s.len() >= 1 ==> total_duration(s).0 > 0,
        total_duration(s).0 >= 0,
    decreases s.len(),
{
    if s.len() > 0 {
        assert(all_measures_wf(s.drop_last())) by {
            assert(forall|i: int| 0 <= i < s.len() - 1 ==> s.drop_last()[i] == s[i]);
        }
        lemma_total_duration_pos(s.drop_last());
        assert(s.last().well_formed());
        lemma_measure_fracs(s.last());
        lemma_frac_add_sign(total_duration(s.drop_last()), s.last().duration_frac());
    }
}

/// Total notes are nonnegative.
proof fn lemma_total_notes_nonneg(s: Seq<MeasureData>)
    ensures
        total_notes(s) >= 0,
    decreases s.len(),
{
    if s.len() > 0 {
        lemma_total_notes_nonneg(s.drop_last());
    }
}

/// What the running state means: the reduced total duration denotes
/// the exact total duration, the note tally is the total note count,
/// and the peak entry is the maximum of the measure densities, with
/// the 1-based index of the first measure reaching it — index 0 only
/// while no measure has been seen.
pub proof fn lemma_density_state_props(s: Seq<MeasureData>)
    requires
        all_measures_wf(s),
    ensures
        spec_density_state(s) matches Some(st) ==> {
            let (dacc, pk, pidx, notes) = st;
            &&& frac_wf(dacc)
            &&& frac_eq(dacc, total_duration(s))
            &&& (s.len() >= 1 ==> dacc.0 > 0)
            &&& notes == total_notes(s)
            &&& frac_wf(pk)
            &&& pk.0 >= 0
            &&& (pidx == 0 <==> s.len() == 0)
            &&& (s.len() == 0 ==> pk == (0int, 1int))
            &&& (s.len() >= 1 ==> 1 <= pidx <= s.len() && frac_eq(
                pk,
                s[pidx - 1].density_frac(),
            ))
            &&& forall|j: int| 0 <= j < s.len() ==> frac_le(
                (#[trigger] s[j]).density_frac(),
                pk,
            )
            &&& forall|j: int| 0 <= j < pidx - 1 ==> frac_lt(
                (#[trigger] s[j]).density_frac(),
                pk,
            )
        },
    decreases s.len(),
{
    if s.len() == 0 {
    } else if spec_density_state(s) is Some {
        let rest = s.drop_last();
        assert(all_measures_wf(rest)) by {
            assert(forall|i: int| 0 <= i < s.len() - 1 ==> rest[i] == s[i]);
        }
        lemma_density_state_props(rest);
        let (dacc, pk, pidx, notes) = spec_density_state(rest).unwrap();
        let m = s.last();
        assert(m.well_formed());
        lemma_measure_fracs(m);
        let d = spec_normalize(m.duration_frac()).unwrap();
        let dacc2 = spec_normalize(frac_add(dacc, d)).unwrap();
        let dens = spec_normalize(frac_div((m.note_count as int, 1), d)).unwrap();
        lemma_norm_frac(m.duration_frac().0, m.duration_frac().1);
        assert(frac_eq(d, m.duration_frac()) && frac_wf(d) && d.0 > 0);
        lemma_frac_add_sign(dacc, d);
        lemma_norm_frac(frac_add(dacc, d).0, frac_add(dacc, d).1);
        assert(frac_eq(dacc2, frac_add(dacc, d)) && frac_wf(dacc2) && dacc2.0 > 0) by {
            crate::rational::lemma_frac_eq_sign(dacc2, frac_add(dacc, d));
        }
        // The reduced sum denotes the exact total duration.
        lemma_total_duration_pos(rest);
        crate::rational::lemma_frac_add_congr(dacc, total_duration(rest), d, m.duration_frac());
        lemma_frac_eq_trans(dacc2, frac_add(dacc, d), frac_add(
            total_duration(rest),
            m.duration_frac(),
        ));
        // The reduced density denotes the measure's density.
        let dd = frac_div((m.note_count as int, 1), d);
        assert(dd.1 > 0);
        lemma_norm_frac(dd.0, dd.1);
        lemma_frac_div_congr_right((m.note_count as int, 1), d, m.duration_frac());
        lemma_frac_eq_trans(dens, dd, frac_div((m.note_count as int, 1), m.duration_frac()));
        lemma_frac_eq_trans(
            dens,
            frac_div((m.note_count as int, 1), m.duration_frac()),
            m.density_frac(),
        );
        assert(frac_eq(dens, m.density_frac()) && frac_wf(dens));
        assert(dens.0 >= 0) by {
            lemma_frac_eq_sign(dens, m.density_frac());
        }
        assert(forall|j: int| 0 <= j < s.len() - 1 ==> rest[j] == s[j]);
        if pidx == 0 {
            // The first measure sets the peak, whatever its density.
            assert(rest.len() == 0);
            assert(s.len() == 1);
            lemma_frac_cmp_congr(m.density_frac(), m.density_frac(), m.density_frac(), dens);
            assert(frac_le(s[0].density_frac(), dens));
            lemma_frac_cmp_congr(dens, dens, dens, m.density_frac());
        } else if frac_lt(pk, dens) {
            // The last measure sets a new peak.
            assert forall|j: int| 0 <= j < s.len() implies frac_le(
                (#[trigger] s[j]).density_frac(),
                dens,
            ) by {
                if j < s.len() - 1 {
                    assert(s[j].well_formed());
                    lemma_measure_fracs(s[j]);
                    lemma_frac_le_lt_trans(s[j].density_frac(), pk, dens);
                } else {
                    lemma_frac_eq_sign(dens, m.density_frac());
                    lemma_frac_cmp_congr(
                        m.density_frac(),
                        m.density_frac(),
                        m.density_frac(),
                        dens,
                    );
                }
            }
            assert forall|j: int| 0 <= j < s.len() - 1 implies frac_lt(
                (#[trigger] s[j]).density_frac(),
                dens,
            ) by {
                assert(s[j].well_formed());
                lemma_measure_fracs(s[j]);
                lemma_frac_le_lt_trans(s[j].density_frac(), pk, dens);
            }
            lemma_frac_cmp_congr(dens, dens, dens, m.density_frac());
        } else {
            // The old peak stands.
            assert forall|j: int| 0 <= j < s.len() implies frac_le(
                (#[trigger] s[j]).density_frac(),
                pk,
            ) by {
                if j == s.len() - 1 {
                    assert(frac_le(dens, pk));
                    lemma_frac_cmp_congr(m.density_frac(), dens, pk, pk);
                }
            }
        }
    }
}

/// Reduce a sequence of measures to its density metrics.
///
/// The result is `None` only when an exact intermediate value cannot
/// be represented. An empty sequence yields all-zero metrics with
/// `peak_measure` 0. Otherwise the average is the total note count
/// over the total duration, the peak is the greatest single-measure
/// density, and `peak_measure` is the 1-based index of the first
/// measure reaching it; it is 0 only when there are no measures.
pub fn calculate_density_metrics(measure_data: &Vec<MeasureData>) -> (r: Option<DensityMetrics>)
    requires
        all_measures_wf(measure_data@),
        measure_data@.len() <= u32::MAX,
    ensures
        r is Some <==> spec_calculate_density(measure_data@) is Some,
        r matches Some(m) ==> {
            let (avg, pk, pidx, notes) = spec_calculate_density(measure_data@).unwrap();
            &&& m.average_notes_per_second@ == avg
            &&& m.peak_notes_per_second@ == pk
            &&& m.peak_measure as int == pidx
            &&& m.total_note_count as int == notes
            &&& m.average_notes_per_second.well_formed()
            &&& m.peak_notes_per_second.well_formed()
            &&& m.average_notes_per_second@.0 >= 0
            &&& m.peak_notes_per_second@.0 >= 0
        },
        r matches Some(m) ==> m.total_note_count as int == total_notes(measure_data@),
        r matches Some(m) ==> (measure_data@.len() == 0 ==> m.average_notes_per_second@ == (
            0int,
            1int,
        ) && m.peak_notes_per_second@ == (0int, 1int) && m.peak_measure == 0
            && m.total_note_count == 0),
        r matches Some(m) ==> (measure_data@.len() >= 1 ==> frac_eq(
            m.average_notes_per_second@,
            frac_div((total_notes(measure_data@), 1int), total_duration(measure_data@)),
        )),
        r matches Some(m) ==> forall|j: int| 0 <= j < measure_data@.len() ==> frac_le(
            (#[trigger] measure_data@[j]).density_frac(),
            m.peak_notes_per_second@,
        ),
        r matches Some(m) ==> (m.peak_measure == 0 <==> measure_data@.len() == 0),
        r matches Some(m) ==> (measure_data@.len() >= 1 ==> 1 <= m.peak_measure
            <= measure_data@.len() && frac_eq(
            m.peak_notes_per_second@,
            measure_data@[m.peak_measure - 1].density_frac(),
        ) && forall|j: int| 0 <= j < m.peak_measure - 1 ==> frac_lt(
            (#[trigger] measure_data@[j]).density_frac(),
            m.peak_notes_per_second@,
        )),
{
    let ghost s = measure_data@;
    let mut total_notes_acc: u64 = 0;
    let mut total_duration_acc = Rational::zero();
    let mut peak = Rational::zero();
    let mut peak_measure: u32 = 0;
    let mut i: usize = 0;

    proof {
        assert(s.subrange(0, 0) =~= Seq::<MeasureData>::empty());
    }
    while i < measure_data.len()
        invariant
            s == measure_data@,
            all_measures_wf(s),
            s.len() <= u32::MAX,
            0 <= i <= s.len(),
            spec_density_state(s.subrange(0, i as int)) == Some(
                (total_duration_acc@, peak@, peak_measure as int, total_notes_acc as int),
            ),
            total_duration_acc.well_formed(),
            peak.well_formed(),
            total_notes_acc <= u32::MAX,
            peak_measure <= i,
        decreases s.len() - i,
    {
        let m = &measure_data[i];
        proof {
            assert(s[i as int].well_formed());
            lemma_measure_fracs(s[i as int]);
            assert(s.subrange(0, i + 1).drop_last() =~= s.subrange(0, i as int));
            assert(s.subrange(0, i + 1).last() == s[i as int]);
        }
        let duration = match m.get_measure_duration_seconds() {
            None => {
                proof {
                    assert(spec_density_state(s.subrange(0, i + 1)) is None);
                    lemma_density_state_none_extends(s, i + 1);
                }
                return None;
            },
            Some(d) => d,
        };
        let new_total_duration = match total_duration_acc.checked_add(&duration) {
            None => {
                proof {
                    assert(spec_density_state(s.subrange(0, i + 1)) is None);
                    lemma_density_state_none_extends(s, i + 1);
                }
                return None;
            },
            Some(t) => t,
        };
        let note_count_rat = Rational::from_int(m.note_count as i64);
        proof {
            assert(duration@.0 > 0) by {
                crate::rational::lemma_norm_frac(
                    s[i as int].duration_frac().0,
                    s[i as int].duration_frac().1,
                );
            }
        }
        let density = match note_count_rat.checked_div(&duration) {
            None => {
                proof {
                    assert(spec_density_state(s.subrange(0, i + 1)) is None);
                    lemma_density_state_none_extends(s, i + 1);
                }
                return None;
            },
            Some(d) => d,
        };
        if peak_measure == 0 || peak.lt(&density) {
            peak = density;
            peak_measure = (i as u32) + 1;
        }
        total_duration_acc = new_total_duration;
        total_notes_acc = total_notes_acc + (m.note_count as u64);
        if total_notes_acc > u32::MAX as u64 {
            proof {
                lemma_density_state_totals(s, i + 1);
            }
            return None;
        }
        i += 1;
    }
    proof {
        assert(s.subrange(0, s.len() as int) =~= s);
        lemma_density_state_props(s);
        lemma_total_notes_nonneg(s);
    }
    if measure_data.len() == 0 {
        return Some(DensityMetrics {
            average_notes_per_second: Rational::zero(),
            peak_notes_per_second: Rational::zero(),
            peak_measure: 0,
            total_note_count: 0,
        });
    }
    proof {
        lemma_total_duration_pos(s);
        lemma_frac_eq_sign(total_duration_acc@, total_duration(s));
    }
    let total_notes_rat = Rational::from_int(total_notes_acc as i64);
    let average = match total_notes_rat.checked_div(&total_duration_acc) {
        None => {
            return None;
        },
        Some(a) => a,
    };
    proof {
        let dd = frac_div((total_notes_acc as int, 1), total_duration_acc@);
        assert(dd.1 > 0);
        lemma_norm_frac(dd.0, dd.1);
        lemma_frac_div_congr_right((total_notes_acc as int, 1), total_duration_acc@,
            total_duration(s));
        lemma_frac_eq_trans(average@, dd, frac_div((total_notes_acc as int, 1),
            total_duration(s)));
        lemma_frac_eq_sign(average@, dd);
        assert(dd.0 >= 0) by (nonlinear_arith)
            requires
                dd.0 == (total_notes_acc as int) * total_duration_acc@.1,
                total_notes_acc >= 0,
                total_duration_acc@.1 >= 1,
        {}
        lemma_density_state_props(s);
        assert(peak@.0 >= 0);
    }
    Some(DensityMetrics {
        average_notes_per_second: average,
        peak_notes_per_second: peak,
        peak_measure,
        total_note_count: total_notes_acc as u32,
    })
}

/// Once the running state fails on a prefix, it fails on the whole.
proof fn lemma_density_state_none_extends(s: Seq<MeasureData>, i: int)
    requires
        0 <= i <= s.len(),
        spec_density_state(s.subrange(0, i)) is None,
    ensures
        spec_density_state(s) is None,
        spec_calculate_density(s) is None,
    decreases s.len() - i,
{
    if i == s.len() {
        assert(s.subrange(0, i) =~= s);
    } else {
        assert(s.subrange(0, i + 1).drop_last() =~= s.subrange(0, i));
        lemma_density_state_none_extends(s, i + 1);
    }
}

/// The note tally grows along the sequence, so a prefix beyond `u32`
/// dooms the whole reduction.
proof fn lemma_density_state_totals(s: Seq<MeasureData>, i: int)
    requires
        0 <= i <= s.len(),
        spec_density_state(s.subrange(0, i)) matches Some(st) && st.3 > u32::MAX,
    ensures
        spec_calculate_density(s) is None,
    decreases s.len() - i,
{
    if i == s.len() {
        assert(s.subrange(0, i) =~= s);
    } else {
        assert(s.subrange(0, i + 1).drop_last() =~= s.subrange(0, i));
        if spec_density_state(s.subrange(0, i + 1)) is Some {
            lemma_density_state_totals(s, i + 1);
        } else {
            lemma_density_state_none_extends(s, i + 1);
        }
    }
}

/// The total note count stays below any density bound times the total
/// duration.
proof fn lemma_notes_le_peak_times_duration(s: Seq<MeasureData>, pk: (int, int))
    requires
        all_measures_wf(s),
        frac_wf(pk),
        forall|j: int| 0 <= j < s.len() ==> frac_le((#[trigger] s[j]).density_frac(), pk),
    ensures
        frac_le((total_notes(s), 1), frac_mul(pk, total_duration(s))),
    decreases s.len(),
{
    if s.len() == 0 {
    } else {
        let rest = s.drop_last();
        assert(all_measures_wf(rest) && forall|j: int| 0 <= j < rest.len() ==> frac_le(
            (#[trigger] rest[j]).density_frac(),
            pk,
        )) by {
            assert(forall|i: int| 0 <= i < s.len() - 1 ==> rest[i] == s[i]);
        }
        lemma_notes_le_peak_times_duration(rest, pk);
        let m = s.last();
        assert(m.well_formed());
        lemma_measure_fracs(m);
        let c = m.note_count as int;
        let t = m.duration_frac();
        // The last measure alone: notes at most the bound times duration.
        lemma_frac_cmp_congr(
            frac_div((c, 1), t),
            m.density_frac(),
            pk,
            pk,
        );
        assert(frac_le(frac_div((c, 1), t), pk));
        lemma_frac_div_le_mul(c, t, pk);
        assert(frac_le((c, 1), frac_mul(pk, t)));
        // Sum both sides.
        let n = total_notes(rest);
        let d = total_duration(rest);
        lemma_total_duration_pos(rest);
        assert(frac_mul(pk, d).1 > 0) by (nonlinear_arith)
            requires
                pk.1 > 0,
                d.1 > 0,
                frac_mul(pk, d).1 == pk.1 * d.1,
        {}
        assert(frac_mul(pk, t).1 > 0) by (nonlinear_arith)
            requires
                pk.1 > 0,
                t.1 > 0,
                frac_mul(pk, t).1 == pk.1 * t.1,
        {}
        lemma_frac_add_le_compat((n, 1), frac_mul(pk, d), (c, 1), frac_mul(pk, t));
        assert(frac_add((n, 1), (c, 1)) == (n + c, 1int));
        lemma_frac_mul_add_distrib(pk, d, t);
        assert(frac_add(frac_mul(pk, d), frac_mul(pk, t)).1 > 0) by (nonlinear_arith)
            requires
                frac_mul(pk, d).1 > 0,
                frac_mul(pk, t).1 > 0,
                frac_add(frac_mul(pk, d), frac_mul(pk, t)).1 == frac_mul(pk, d).1 * frac_mul(
                    pk,
                    t,
                ).1,
        {}
        assert(frac_mul(pk, frac_add(d, t)).1 > 0) by (nonlinear_arith)
            requires
                pk.1 > 0,
                d.1 > 0,
                t.1 > 0,
                frac_mul(pk, frac_add(d, t)).1 == pk.1 * (d.1 * t.1),
        {}
        lemma_frac_cmp_congr(
            (n + c, 1int),
            (n + c, 1int),
            frac_add(frac_mul(pk, d), frac_mul(pk, t)),
            frac_mul(pk, frac_add(d, t)),
        );
    }
}

/// With every measure's density equal to the bound, the total note
/// count is exactly the bound times the total duration.
proof fn lemma_notes_eq_peak_times_duration(s: Seq<MeasureData>, pk: (int, int))
    requires
        all_measures_wf(s),
        frac_wf(pk),
        forall|j: int| 0 <= j < s.len() ==> frac_eq((#[trigger] s[j]).density_frac(), pk),
    ensures
        frac_eq((total_notes(s), 1), frac_mul(pk, total_duration(s))),
    decreases s.len(),
{
    if s.len() == 0 {
    } else {
        let rest = s.drop_last();
        assert(all_measures_wf(rest) && forall|j: int| 0 <= j < rest.len() ==> frac_eq(
            (#[trigger] rest[j]).density_frac(),
            pk,
        )) by {
            assert(forall|i: int| 0 <= i < s.len() - 1 ==> rest[i] == s[i]);
        }
        lemma_notes_eq_peak_times_duration(rest, pk);
        let m = s.last();
        assert(m.well_formed());
        lemma_measure_fracs(m);
        let c = m.note_count as int;
        let t = m.duration_frac();
        let n = total_notes(rest);
        let d = total_duration(rest);
        lemma_total_duration_pos(rest);
        // The last measure alone: notes equal the bound times duration.
        lemma_frac_eq_trans(frac_div((c, 1), t), m.density_frac(), pk);
        crate::rational::lemma_frac_div_eq_mul(c, t, pk);
        assert(frac_eq((c, 1), frac_mul(pk, t)));
        // Sum both sides.
        assert(frac_mul(pk, d).1 > 0) by (nonlinear_arith)
            requires
                pk.1 > 0,
                d.1 > 0,
                frac_mul(pk, d).1 == pk.1 * d.1,
        {}
        assert(frac_mul(pk, t).1 > 0) by (nonlinear_arith)
            requires
                pk.1 > 0,
                t.1 > 0,
                frac_mul(pk, t).1 == pk.1 * t.1,
        {}
        crate::rational::lemma_frac_add_congr((n, 1), frac_mul(pk, d), (c, 1), frac_mul(pk, t));
        assert(frac_add((n, 1), (c, 1)) == (n + c, 1int));
        lemma_frac_mul_add_distrib(pk, d, t);
        assert(frac_add(frac_mul(pk, d), frac_mul(pk, t)).1 > 0) by (nonlinear_arith)
            requires
                frac_mul(pk, d).1 > 0,
                frac_mul(pk, t).1 > 0,
                frac_add(frac_mul(pk, d), frac_mul(pk, t)).1 == frac_mul(pk, d).1 * frac_mul(
                    pk,
                    t,
                ).1,
        {}
        assert(frac_mul(pk, frac_add(d, t)).1 > 0) by (nonlinear_arith)
            requires
                pk.1 > 0,
                d.1 > 0,
                t.1 > 0,
                frac_mul(pk, frac_add(d, t)).1 == pk.1 * (d.1 * t.1),
        {}
        lemma_frac_eq_trans(
            (n + c, 1int),
            frac_add(frac_mul(pk, d), frac_mul(pk, t)),
            frac_mul(pk, frac_add(d, t)),
        );
    }
}

/// When every measure has the same density, the duration-weighted
/// average equals it: peak and average coincide exactly when the
/// densities do not vary.
pub proof fn lemma_average_eq_peak_when_densities_identical(s: Seq<MeasureData>, pk: (int, int))
    requires
        all_measures_wf(s),
        s.len() >= 1,
        frac_wf(pk),
        forall|j: int| 0 <= j < s.len() ==> frac_eq((#[trigger] s[j]).density_frac(), pk),
    ensures
        frac_eq(frac_div((total_notes(s), 1), total_duration(s)), pk),
{
    lemma_notes_eq_peak_times_duration(s, pk);
    lemma_total_duration_pos(s);
    crate::rational::lemma_frac_div_eq_mul(total_notes(s), total_duration(s), pk);
}

/// With a strict gap below the bound somewhere, the total note count
/// stays strictly below the bound times the total duration.
proof fn lemma_notes_lt_peak_times_duration(s: Seq<MeasureData>, pk: (int, int), j0: int)
    requires
        all_measures_wf(s),
        frac_wf(pk),
        forall|j: int| 0 <= j < s.len() ==> frac_le((#[trigger] s[j]).density_frac(), pk),
        0 <= j0 < s.len(),
        frac_lt(s[j0].density_frac(), pk),
    ensures
        frac_lt((total_notes(s), 1), frac_mul(pk, total_duration(s))),
    decreases s.len(),
{
    let rest = s.drop_last();
    assert(all_measures_wf(rest) && forall|j: int| 0 <= j < rest.len() ==> frac_le(
        (#[trigger] rest[j]).density_frac(),
        pk,
    )) by {
        assert(forall|i: int| 0 <= i < s.len() - 1 ==> rest[i] == s[i]);
    }
    let m = s.last();
    assert(m.well_formed());
    lemma_measure_fracs(m);
    let c = m.note_count as int;
    let t = m.duration_frac();
    let n = total_notes(rest);
    let d = total_duration(rest);
    lemma_total_duration_pos(rest);
    assert(frac_mul(pk, d).1 > 0) by (nonlinear_arith)
        requires
            pk.1 > 0,
            d.1 > 0,
            frac_mul(pk, d).1 == pk.1 * d.1,
    {}
    assert(frac_mul(pk, t).1 > 0) by (nonlinear_arith)
        requires
            pk.1 > 0,
            t.1 > 0,
            frac_mul(pk, t).1 == pk.1 * t.1,
    {}
    if j0 == s.len() - 1 {
        // The last measure is strictly below the bound.
        lemma_notes_le_peak_times_duration(rest, pk);
        lemma_frac_cmp_congr(frac_div((c, 1), t), m.density_frac(), pk, pk);
        assert(frac_lt(frac_div((c, 1), t), pk));
        crate::rational::lemma_frac_div_lt_mul(c, t, pk);
        crate::rational::lemma_frac_add_le_lt_compat((n, 1), frac_mul(pk, d), (c, 1), frac_mul(
            pk,
            t,
        ));
        assert(frac_add((n, 1), (c, 1)) == (n + c, 1int));
        lemma_frac_mul_add_distrib(pk, d, t);
        assert(frac_add(frac_mul(pk, d), frac_mul(pk, t)).1 > 0) by (nonlinear_arith)
            requires
                frac_mul(pk, d).1 > 0,
                frac_mul(pk, t).1 > 0,
                frac_add(frac_mul(pk, d), frac_mul(pk, t)).1 == frac_mul(pk, d).1 * frac_mul(
                    pk,
                    t,
                ).1,
        {}
        assert(frac_mul(pk, frac_add(d, t)).1 > 0) by (nonlinear_arith)
            requires
                pk.1 > 0,
                d.1 > 0,
                t.1 > 0,
                frac_mul(pk, frac_add(d, t)).1 == pk.1 * (d.1 * t.1),
        {}
        lemma_frac_cmp_congr(
            (n + c, 1int),
            (n + c, 1int),
            frac_add(frac_mul(pk, d), frac_mul(pk, t)),
            frac_mul(pk, frac_add(d, t)),
        );
    } else {
        // Some earlier measure is strictly below the bound.
        assert(rest[j0] == s[j0]);
        lemma_notes_lt_peak_times_duration(rest, pk, j0);
        lemma_frac_cmp_congr(frac_div((c, 1), t), m.density_frac(), pk, pk);
        assert(frac_le(frac_div((c, 1), t), pk));
        lemma_frac_div_le_mul(c, t, pk);
        crate::rational::lemma_frac_add_le_lt_compat((c, 1), frac_mul(pk, t), (n, 1), frac_mul(
            pk,
            d,
        ));
        assert(frac_add((c, 1), (n, 1)) == (c + n, 1int));
        assert(frac_add((n, 1), (c, 1)) == (n + c, 1int));
        lemma_frac_mul_add_distrib(pk, t, d);
        lemma_frac_mul_add_distrib(pk, d, t);
        assert(frac_add(frac_mul(pk, t), frac_mul(pk, d)).1 > 0) by (nonlinear_arith)
            requires
                frac_mul(pk, d).1 > 0,
                frac_mul(pk, t).1 > 0,
                frac_add(frac_mul(pk, t), frac_mul(pk, d)).1 == frac_mul(pk, t).1 * frac_mul(
                    pk,
                    d,
                ).1,
        {}
        assert(frac_mul(pk, frac_add(t, d)).1 > 0) by (nonlinear_arith)
            requires
                pk.1 > 0,
                d.1 > 0,
                t.1 > 0,
                frac_mul(pk, frac_add(t, d)).1 == pk.1 * (t.1 * d.1),
        {}
        assert(frac_mul(pk, frac_add(d, t)).1 > 0) by (nonlinear_arith)
            requires
                pk.1 > 0,
                d.1 > 0,
                t.1 > 0,
                frac_mul(pk, frac_add(d, t)).1 == pk.1 * (d.1 * t.1),
        {}
        assert(frac_add(t, d).1 > 0) by (nonlinear_arith)
            requires
                t.1 > 0,
                d.1 > 0,
                frac_add(t, d).1 == t.1 * d.1,
        {}
        assert(frac_add(d, t).1 > 0) by (nonlinear_arith)
            requires
                t.1 > 0,
                d.1 > 0,
                frac_add(d, t).1 == d.1 * t.1,
        {}
        assert(frac_eq(frac_add(t, d), frac_add(d, t))) by (nonlinear_arith)
            requires
                frac_add(t, d).0 == t.0 * d.1 + d.0 * t.1,
                frac_add(t, d).1 == t.1 * d.1,
                frac_add(d, t).0 == d.0 * t.1 + t.0 * d.1,
                frac_add(d, t).1 == d.1 * t.1,
        {}
        crate::rational::lemma_frac_mul_congr(pk, pk, frac_add(t, d), frac_add(d, t));
        lemma_frac_cmp_congr(
            (c + n, 1int),
            (n + c, 1int),
            frac_add(frac_mul(pk, t), frac_mul(pk, d)),
            frac_mul(pk, frac_add(d, t)),
        );
    }
}

/// When some measure's density lies strictly below a bound every
/// measure respects, the duration-weighted average lies strictly below
/// that bound too: the peak strictly exceeds the average whenever the
/// densities vary.
pub proof fn lemma_average_lt_peak_when_densities_vary(s: Seq<MeasureData>, pk: (int, int))
    requires
        all_measures_wf(s),
        s.len() >= 1,
        frac_wf(pk),
        forall|j: int| 0 <= j < s.len() ==> frac_le((#[trigger] s[j]).density_frac(), pk),
        exists|j: int| 0 <= j < s.len() && frac_lt((#[trigger] s[j]).density_frac(), pk),
    ensures
        frac_lt(frac_div((total_notes(s), 1), total_duration(s)), pk),
{
    let j0 = choose|j: int| 0 <= j < s.len() && frac_lt((#[trigger] s[j]).density_frac(), pk);
    lemma_notes_lt_peak_times_duration(s, pk, j0);
    lemma_total_duration_pos(s);
    crate::rational::lemma_frac_div_lt_mul(total_notes(s), total_duration(s), pk);
}

/// The duration-weighted average density never exceeds a bound that
/// every single measure's density respects — in particular, it never
/// exceeds the peak density.
pub proof fn lemma_average_le_peak(s: Seq<MeasureData>, pk: (int, int))
    requires
        all_measures_wf(s),
        s.len() >= 1,
        frac_wf(pk),
        forall|j: int| 0 <= j < s.len() ==> frac_le((#[trigger] s[j]).density_frac(), pk),
    ensures
        frac_le(frac_div((total_notes(s), 1), total_duration(s)), pk),
{
    lemma_notes_le_peak_times_duration(s, pk);
    lemma_total_duration_pos(s);
    lemma_frac_div_le_mul(total_notes(s), total_duration(s), pk);
}

/// The first testable fact about the metrics themselves: whenever the
/// reduction succeeds on a nonempty sequence, the average density it
/// reports is nonnegative and never exceeds the peak it reports.
pub proof fn lemma_density_metrics_average_le_peak(s: Seq<MeasureData>)
    requires
        all_measures_wf(s),
        s.len() >= 1,
        spec_calculate_density(s) is Some,
    ensures
        ({
            let (avg, pk, pidx, notes) = spec_calculate_density(s).unwrap();
            frac_le((0int, 1int), avg) && frac_le(avg, pk)
        }),
{
    let (avg, pk, pidx, notes) = spec_calculate_density(s).unwrap();
    lemma_density_state_props(s);
    let (dacc, pk0, pidx0, notes0) = spec_density_state(s).unwrap();
    lemma_total_duration_pos(s);
    lemma_total_notes_nonneg(s);
    // The stored average denotes total notes over total duration.
    let dd = frac_div((notes0, 1), dacc);
    assert(dd.1 > 0);
    lemma_norm_frac(dd.0, dd.1);
    assert(avg == spec_normalize(dd).unwrap());
    lemma_frac_div_congr_right((notes0, 1), dacc, total_duration(s));
    lemma_frac_eq_trans(avg, dd, frac_div((notes0, 1), total_duration(s)));
    let ideal = frac_div((total_notes(s), 1), total_duration(s));
    // It lies between zero and the peak.
    lemma_average_le_peak(s, pk);
    assert(ideal.1 > 0);
    lemma_frac_cmp_congr(avg, ideal, pk, pk);
    assert(frac_le((0int, 1int), ideal)) by (nonlinear_arith)
        requires
            ideal.0 == total_notes(s) * total_duration(s).1,
            total_notes(s) >= 0,
            total_duration(s).1 > 0,
            ideal.1 > 0,
    {}
    lemma_frac_cmp_congr((0int, 1int), (0int, 1int), ideal, avg);
}

} // verus!
