//! The batch pipeline: load the registry from its sources, fold the
//! accumulator over the time-ordered event stream, run the final
//! cutoff pass, and render the report.

use vstd::prelude::*;

use crate::accumulator::{
    init_acc, spec_accumulate, spec_finalize, spec_step, AccView, CalibrationAccumulator,
    CandView,
};
use crate::registry::{lookup_last, MarketRegistry};
use crate::report::{render_report, render_view};
use crate::strutil::clone_string;
use crate::types::{Config, Question, RunError, WagerEvent};

verus! {

/// Model of a finished run.
#[verifier::ext_equal]
pub struct RunView {
    /// Full-history histogram.
    pub full: Seq<(u64, u64)>,
    /// Cutoff-snapshot histogram.
    pub cutoff: Seq<(u64, u64)>,
    /// Events processed.
    pub total: u64,
    /// Events dropped for a missing question.
    pub orphaned: u64,
    /// Ids of the questions those events referred to.
    pub missing: Seq<Seq<char>>,
}

/// The whole run as a function of the merged registry, the ordered
/// event stream and the configuration.
pub open spec fn spec_run(reg: Seq<Question>, events: Seq<WagerEvent>, cfg: Config) -> Result<
    RunView,
    RunError,
> {
    match spec_accumulate(init_acc(), reg, events, cfg) {
        Err(er) => Err(er),
        Ok(acc) => match spec_finalize(init_acc().hist, acc.cands, reg, cfg) {
            Err(er) => Err(er),
            Ok(cut) => Ok(
                RunView {
                    full: acc.hist,
                    cutoff: cut,
                    total: acc.total,
                    orphaned: acc.orphaned,
                    missing: acc.missing,
                },
            ),
        },
    }
}

/// A finished run: the two histograms, the rendered report of the
/// cutoff snapshot, and the diagnostic counts.
pub struct RunOutput {
    /// Full-history histogram: 101 cells of (yes, no) counts.
    pub full_histogram: Vec<(u64, u64)>,
    /// Cutoff-snapshot histogram, bucketed at the coarse granularity.
    pub cutoff_histogram: Vec<(u64, u64)>,
    /// The rendered cutoff-snapshot report, 101 lines.
    pub report: String,
    /// Events processed.
    pub total_events: u64,
    /// Events dropped because their question is unknown.
    pub orphaned_events: u64,
    /// The unknown question ids, in first-seen order.
    pub missing_question_ids: Vec<String>,
}

/// Two registries that answer every lookup alike drive the whole run
/// alike; in particular the run over a loaded registry equals the run
/// over the flattened, later-wins concatenation of its sources.
pub proof fn lemma_run_congruent(
    reg1: Seq<Question>,
    reg2: Seq<Question>,
    events: Seq<WagerEvent>,
    cfg: Config,
)
    requires
        forall|id: Seq<char>| #[trigger] lookup_last(reg1, id) == lookup_last(reg2, id),
    ensures
        spec_run(reg1, events, cfg) == spec_run(reg2, events, cfg),
{
    lemma_accumulate_congruent(init_acc(), reg1, reg2, events, cfg);
    match spec_accumulate(init_acc(), reg1, events, cfg) {
        Ok(acc) => {
            lemma_finalize_congruent(init_acc().hist, acc.cands, reg1, reg2, cfg);
        },
        Err(_) => {},
    }
}

/// A run fails only as the schema-drift signal: starting from the
/// empty accumulator the final pass cannot break its own invariant,
/// so the one error a run can return is an invalid resolution met in
/// the stream.
pub proof fn lemma_run_err_is_resolution_invalid(
    reg: Seq<Question>,
    events: Seq<WagerEvent>,
    cfg: Config,
)
    ensures
        spec_run(reg, events, cfg) is Err ==> spec_run(reg, events, cfg) == Err::<
            RunView,
            RunError,
        >(RunError::ResolutionInvalid),
{
    lemma_accumulate_resolved(init_acc(), reg, events, cfg);
    match spec_accumulate(init_acc(), reg, events, cfg) {
        Ok(acc) => {
            crate::accumulator::lemma_finalize_total(init_acc().hist, acc.cands, reg, cfg);
        },
        Err(_) => {},
    }
}

proof fn lemma_accumulate_resolved(
    acc: AccView,
    reg: Seq<Question>,
    events: Seq<WagerEvent>,
    cfg: Config,
)
    requires
        crate::accumulator::cands_resolved(acc.cands, reg),
    ensures
        spec_accumulate(acc, reg, events, cfg) is Err ==> spec_accumulate(acc, reg, events, cfg)
            == Err::<AccView, RunError>(RunError::ResolutionInvalid),
        spec_accumulate(acc, reg, events, cfg) is Ok ==> crate::accumulator::cands_resolved(
            spec_accumulate(acc, reg, events, cfg)->Ok_0.cands,
            reg,
        ),
    decreases events.len(),
{
    if events.len() > 0 {
        match spec_step(acc, reg, events[0], cfg) {
            Ok(a2) => {
                crate::accumulator::lemma_step_keeps_cands_resolved(acc, reg, events[0], cfg);
                lemma_accumulate_resolved(a2, reg, events.drop_first(), cfg);
            },
            Err(_) => {},
        }
    }
}

proof fn lemma_step_congruent(
    acc: AccView,
    reg1: Seq<Question>,
    reg2: Seq<Question>,
    e: WagerEvent,
    cfg: Config,
)
    requires
        forall|id: Seq<char>| #[trigger] lookup_last(reg1, id) == lookup_last(reg2, id),
    ensures
        spec_step(acc, reg1, e, cfg) == spec_step(acc, reg2, e, cfg),
{
    assert(lookup_last(reg1, e.question_id@) == lookup_last(reg2, e.question_id@));
}

proof fn lemma_accumulate_congruent(
    acc: AccView,
    reg1: Seq<Question>,
    reg2: Seq<Question>,
    events: Seq<WagerEvent>,
    cfg: Config,
)
    requires
        forall|id: Seq<char>| #[trigger] lookup_last(reg1, id) == lookup_last(reg2, id),
    ensures
        spec_accumulate(acc, reg1, events, cfg) == spec_accumulate(acc, reg2, events, cfg),
    decreases events.len(),
{
    if events.len() > 0 {
        lemma_step_congruent(acc, reg1, reg2, events[0], cfg);
        match spec_step(acc, reg1, events[0], cfg) {
            Ok(a2) => {
                lemma_accumulate_congruent(a2, reg1, reg2, events.drop_first(), cfg);
            },
            Err(_) => {},
        }
    }
}

proof fn lemma_finalize_congruent(
    hist: Seq<(u64, u64)>,
    cands: Seq<CandView>,
    reg1: Seq<Question>,
    reg2: Seq<Question>,
    cfg: Config,
)
    requires
        forall|id: Seq<char>| #[trigger] lookup_last(reg1, id) == lookup_last(reg2, id),
    ensures
        spec_finalize(hist, cands, reg1, cfg) == spec_finalize(hist, cands, reg2, cfg),
    decreases cands.len(),
{
    if cands.len() > 0 {
        assert(lookup_last(reg1, cands[0].qid) == lookup_last(reg2, cands[0].qid));
        match lookup_last(reg1, cands[0].qid) {
            Some(q) => {
                let b = crate::bucket::coarse_bucket_of(cands[0].prob as int, cfg.granularity as int);
                lemma_finalize_congruent(
                    crate::accumulator::bump(hist, b, true),
                    cands.drop_first(),
                    reg1,
                    reg2,
                    cfg,
                );
                lemma_finalize_congruent(
                    crate::accumulator::bump(hist, b, false),
                    cands.drop_first(),
                    reg1,
                    reg2,
                    cfg,
                );
            },
            None => {},
        }
    }
}

/// An owned copy of a histogram.
fn copy_histogram(h: &Vec<(u64, u64)>) -> (r: Vec<(u64, u64)>)
    ensures
        r@ == h@,
{
    let mut out: Vec<(u64, u64)> = Vec::new();
    let n = h.len();
    let mut i: usize = 0;
    while i < n
        invariant
            n == h@.len(),
            0 <= i <= n,
            out@ == h@.subrange(0, i as int),
        decreases n - i,
    {
        out.push(h[i]);
        proof {
            assert(out@ =~= h@.subrange(0, i + 1));
        }
        i = i + 1;
    }
    proof {
        assert(out@ =~= h@);
    }
    out
}

/// An owned copy of an id list; the copies' views equal the
/// originals'.
fn copy_ids(ids: &Vec<String>) -> (r: Vec<String>)
    ensures
        r@.map_values(|s: String| s@) == ids@.map_values(|s: String| s@),
{
    let mut out: Vec<String> = Vec::new();
    let n = ids.len();
    let mut i: usize = 0;
    while i < n
        invariant
            n == ids@.len(),
            0 <= i <= n,
            out@.len() == i,
            forall|j: int| 0 <= j < i ==> (#[trigger] out@[j])@ == ids@[j]@,
        decreases n - i,
    {
        out.push(clone_string(&ids[i]));
        i = i + 1;
    }
    proof {
        assert(out@.map_values(|s: String| s@) =~= ids@.map_values(|s: String| s@));
    }
    out
}

/// Runs the whole batch against a loaded registry: folds the
/// accumulator over the event stream in its given order, halting on
/// the first invalid resolution, then performs the cutoff pass and
/// renders the report of the cutoff-snapshot histogram.
pub fn run(registry: &MarketRegistry, events: &Vec<WagerEvent>, cfg: &Config) -> (r: Result<
    RunOutput,
    RunError,
>)
    requires
        registry.wf(),
        cfg.wf(),
        forall|i: int| 0 <= i < events@.len() ==> (#[trigger] events@[i]).wf(),
    ensures
        ({
            match spec_run(registry@, events@, *cfg) {
                Err(er) => r == Err::<RunOutput, RunError>(er),
                Ok(o) => match r {
                    Ok(out) => out.full_histogram@ == o.full && out.cutoff_histogram@ == o.cutoff
                        && out.report@ == render_view(o.cutoff) && out.total_events == o.total
                        && out.orphaned_events == o.orphaned && out.missing_question_ids@.map_values(
                        |s: String| s@,
                    ) == o.missing,
                    Err(_) => false,
                },
            }
        }),
{
    let mut acc = CalibrationAccumulator::new();
    let ghost events_v = events@;
    let n = events.len();
    let mut i: usize = 0;
    proof {
        assert(events_v.skip(0) =~= events_v);
    }
    while i < n
        invariant
            registry.wf(),
            cfg.wf(),
            acc.wf(),
            n == events@.len(),
            events@ == events_v,
            forall|k: int| 0 <= k < events@.len() ==> (#[trigger] events@[k]).wf(),
            0 <= i <= n,
            acc@.total <= i,
            spec_accumulate(init_acc(), registry@, events_v, *cfg) == spec_accumulate(
                acc@,
                registry@,
                events_v.skip(i as int),
                *cfg,
            ),
        decreases n - i,
    {
        let ghost acc_pre = acc@;
        let ghost rest = events_v.skip(i as int);
        proof {
            assert(rest.len() > 0);
            assert(rest[0] == events_v[i as int]);
            assert(rest.drop_first() =~= events_v.skip(i + 1));
        }
        let e = &events[i];
        match acc.process_event(registry, e, cfg) {
            Ok(_) => {},
            Err(er) => {
                proof {
                    assert(spec_accumulate(acc_pre, registry@, rest, *cfg) == Err::<
                        AccView,
                        RunError,
                    >(er));
                    assert(spec_run(registry@, events_v, *cfg) == Err::<RunView, RunError>(er));
                }
                return Err(er);
            },
        }
        i = i + 1;
    }
    proof {
        assert(events_v.skip(n as int) =~= Seq::<WagerEvent>::empty());
        assert(spec_accumulate(init_acc(), registry@, events_v, *cfg) == Ok::<AccView, RunError>(
            acc@,
        ));
    }
    let cutoff_histogram = match acc.finalize(registry, cfg) {
        Ok(h) => h,
        Err(er) => {
            return Err(er);
        },
    };
    let report = render_report(&cutoff_histogram);
    let full_histogram = copy_histogram(acc.histogram());
    let missing_question_ids = copy_ids(acc.missing_question_ids());
    let total_events = acc.total_events();
    let orphaned_events = acc.orphaned_events();
    Ok(
        RunOutput {
            full_histogram,
            cutoff_histogram,
            report,
            total_events,
            orphaned_events,
            missing_question_ids,
        },
    )
}

} // verus!
