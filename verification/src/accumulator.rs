//! Calibration accumulator: consumes the event stream in order,
//! applies eligibility filtering and resolution, and produces the
//! full-history bucket histogram together with the cutoff-snapshot
//! candidates; a final pass buckets the candidates coarsely.

use vstd::prelude::*;

use crate::bucket::{bucket, bucket_of, coarse_bucket_of, lemma_bucket_range};
use crate::registry::{lookup_last, MarketRegistry};
use crate::resolver::{opt_str_view, resolve, resolve_verdict};
use crate::strutil::{clone_opt_string, clone_string, has_substring, opt_str_eq, str_contains, str_eq};
use crate::types::{Config, Question, RunError, Verdict, WagerEvent};

verus! {

/// Milliseconds in seven days: the least eligible question duration.
pub const MS_PER_WEEK: i64 = 604800000;

/// The question's mechanism tag, when present, names the
/// continuous-pari-mutuel mechanism, and its fallback type tag, when
/// present, mentions it.
pub open spec fn mechanism_ok(q: Question) -> bool {
    &&& match q.mechanism {
        Some(m) => m@ == "cpmm-1"@,
        None => true,
    }
    &&& match q.type_tag {
        Some(t) => has_substring(t@, "cpmm-1"@),
        None => true,
    }
}

/// When both timestamps are known the question stayed open for at
/// least seven days; with no close timestamp the check is skipped, an
/// accepted relaxation for sources that lack the field.
pub open spec fn duration_ok(q: Question) -> bool {
    match q.close_time {
        Some(c) => c - q.created_time >= MS_PER_WEEK,
        None => true,
    }
}

/// Eligibility filter for wager events on the question.
pub open spec fn eligible(q: Question) -> bool {
    mechanism_ok(q) && duration_ok(q)
}

/// Whether an event's probability becomes the question's cutoff
/// candidate: the event precedes the cutoff and the question's close
/// (and, when the configuration demands it, resolution) timestamp
/// does not.
pub open spec fn cutoff_applies(q: Question, e: WagerEvent, cfg: Config) -> bool {
    &&& e.created_time <= cfg.cutoff
    &&& match q.close_time {
        Some(c) => c >= cfg.cutoff,
        None => true,
    }
    &&& (cfg.require_resolution_after_cutoff ==> match q.resolution_time {
        Some(t) => t >= cfg.cutoff,
        None => false,
    })
}

/// Model of one cutoff candidate: the last probability seen for a
/// (question, answer) key.
#[verifier::ext_equal]
pub struct CandView {
    /// Owning question id.
    pub qid: Seq<char>,
    /// Answer selector, as stored on the event.
    pub ans: Option<Seq<char>>,
    /// Probability after the event, in basis points.
    pub prob: u32,
}

/// Model of the accumulator state.
#[verifier::ext_equal]
pub struct AccView {
    /// 101 cells of (yes, no) counts.
    pub hist: Seq<(u64, u64)>,
    /// Cutoff candidates, one per (question, answer) key.
    pub cands: Seq<CandView>,
    /// Ids of questions events referred to but the registry lacks.
    pub missing: Seq<Seq<char>>,
    /// Events processed.
    pub total: u64,
    /// Events dropped for a missing question.
    pub orphaned: u64,
    /// Events dropped by the eligibility filter.
    pub ineligible: u64,
    /// Events on questions not yet resolved.
    pub unresolved: u64,
    /// Events on questions resolved without a binary ground truth.
    pub voided: u64,
}

/// Index of the candidate holding the key, or -1.
pub open spec fn find_cand(cands: Seq<CandView>, qid: Seq<char>, ans: Option<Seq<char>>) -> int
    decreases cands.len(),
{
    if cands.len() == 0 {
        -1
    } else if cands[0].qid == qid && cands[0].ans == ans {
        0
    } else {
        let r = find_cand(cands.drop_first(), qid, ans);
        if r < 0 {
            -1
        } else {
            r + 1
        }
    }
}

/// The candidate list after recording a probability for a key,
/// overwriting any prior value for that key.
pub open spec fn upsert_cand(
    cands: Seq<CandView>,
    qid: Seq<char>,
    ans: Option<Seq<char>>,
    prob: u32,
) -> Seq<CandView> {
    let i = find_cand(cands, qid, ans);
    if i >= 0 {
        cands.update(i, CandView { qid, ans, prob })
    } else {
        cands.push(CandView { qid, ans, prob })
    }
}

/// The probability a candidate list holds for a key.
pub open spec fn cand_prob(cands: Seq<CandView>, qid: Seq<char>, ans: Option<Seq<char>>) -> Option<
    u32,
> {
    let i = find_cand(cands, qid, ans);
    if i >= 0 {
        Some(cands[i].prob)
    } else {
        None
    }
}

/// An id list that contains the id.
pub open spec fn contains_id(s: Seq<Seq<char>>, id: Seq<char>) -> bool {
    exists|i: int| 0 <= i < s.len() && s[i] == id
}

/// The id list after recording an id once.
pub open spec fn insert_missing(s: Seq<Seq<char>>, id: Seq<char>) -> Seq<Seq<char>> {
    if contains_id(s, id) {
        s
    } else {
        s.push(id)
    }
}

/// The histogram after one more observation in cell `b`.
pub open spec fn bump(hist: Seq<(u64, u64)>, b: int, yes: bool) -> Seq<(u64, u64)> {
    if yes {
        hist.update(b, ((hist[b].0 + 1) as u64, hist[b].1))
    } else {
        hist.update(b, (hist[b].0, (hist[b].1 + 1) as u64))
    }
}

/// Total observations a histogram holds.
pub open spec fn hist_sum(hist: Seq<(u64, u64)>) -> int
    decreases hist.len(),
{
    if hist.len() == 0 {
        0int
    } else {
        hist[0].0 + hist[0].1 + hist_sum(hist.drop_first())
    }
}

/// No two candidates share a key.
pub open spec fn unique_cand_keys(cands: Seq<CandView>) -> bool {
    forall|i: int, j: int|
        0 <= i < j < cands.len() ==> ((#[trigger] cands[i]).qid != (#[trigger] cands[j]).qid
            || cands[i].ans != cands[j].ans)
}

/// The accumulator's invariant: 101 cells; every event processed is
/// accounted for exactly once, so the histogram holds exactly the
/// events that were eligible and had a determinate verdict; candidate
/// keys are unique and their probabilities in range.
pub open spec fn acc_wf(a: AccView) -> bool {
    &&& a.hist.len() == 101
    &&& hist_sum(a.hist) + a.orphaned + a.ineligible + a.unresolved + a.voided == a.total
    &&& unique_cand_keys(a.cands)
    &&& forall|i: int| 0 <= i < a.cands.len() ==> (#[trigger] a.cands[i]).prob <= crate::PROB_ONE
}

/// The empty accumulator state.
pub open spec fn init_acc() -> AccView {
    AccView {
        hist: Seq::new(101, |i: int| (0u64, 0u64)),
        cands: Seq::empty(),
        missing: Seq::empty(),
        total: 0,
        orphaned: 0,
        ineligible: 0,
        unresolved: 0,
        voided: 0,
    }
}

/// One step of the accumulator on one event, in stream order: the
/// event is counted; an event with no question is orphaned; an
/// ineligible question, an unresolved or a voided verdict skip the
/// event; an invalid resolution is fatal; a determinate verdict lands
/// in the bucket of the event's after-probability, and when the
/// cutoff test holds the probability overwrites the candidate for the
/// event's (question, answer) key.
pub open spec fn spec_step(acc: AccView, reg: Seq<Question>, e: WagerEvent, cfg: Config) -> Result<
    AccView,
    RunError,
> {
    let acc1 = AccView { total: (acc.total + 1) as u64, ..acc };
    match lookup_last(reg, e.question_id@) {
        None => Ok(
            AccView {
                orphaned: (acc1.orphaned + 1) as u64,
                missing: insert_missing(acc1.missing, e.question_id@),
                ..acc1
            },
        ),
        Some(q) => {
            if !eligible(q) {
                Ok(AccView { ineligible: (acc1.ineligible + 1) as u64, ..acc1 })
            } else {
                match resolve_verdict(q.resolution, e.answer.deep_view()) {
                    Verdict::Unresolved => Ok(
                        AccView { unresolved: (acc1.unresolved + 1) as u64, ..acc1 },
                    ),
                    Verdict::Voided => Ok(AccView { voided: (acc1.voided + 1) as u64, ..acc1 }),
                    Verdict::Invalid => Err(RunError::ResolutionInvalid),
                    v => {
                        let hist2 = bump(acc1.hist, bucket_of(e.prob_after as int), v == Verdict::Yes);
                        let cands2 = if cutoff_applies(q, e, cfg) {
                            upsert_cand(acc1.cands, e.question_id@, e.answer.deep_view(), e.prob_after)
                        } else {
                            acc1.cands
                        };
                        Ok(AccView { hist: hist2, cands: cands2, ..acc1 })
                    },
                }
            }
        },
    }
}

/// The accumulator folded over a whole stream.
pub open spec fn spec_accumulate(
    acc: AccView,
    reg: Seq<Question>,
    events: Seq<WagerEvent>,
    cfg: Config,
) -> Result<AccView, RunError>
    decreases events.len(),
{
    if events.len() == 0 {
        Ok(acc)
    } else {
        match spec_step(acc, reg, events[0], cfg) {
            Ok(a2) => spec_accumulate(a2, reg, events.drop_first(), cfg),
            Err(er) => Err(er),
        }
    }
}

/// The final pass over the cutoff candidates: each candidate's
/// probability lands in the coarse bucket of the configured
/// granularity under the key's re-resolved verdict. A candidate whose
/// question is gone or no longer determinate breaks the accumulator's
/// own invariant; an invalid resolution is the fatal data-integrity
/// signal.
pub open spec fn spec_finalize(
    hist: Seq<(u64, u64)>,
    cands: Seq<CandView>,
    reg: Seq<Question>,
    cfg: Config,
) -> Result<Seq<(u64, u64)>, RunError>
    decreases cands.len(),
{
    if cands.len() == 0 {
        Ok(hist)
    } else {
        let c = cands[0];
        match lookup_last(reg, c.qid) {
            None => Err(RunError::InternalInvariant),
            Some(q) => {
                let b = coarse_bucket_of(c.prob as int, cfg.granularity as int);
                match resolve_verdict(q.resolution, c.ans) {
                    Verdict::Yes => spec_finalize(bump(hist, b, true), cands.drop_first(), reg, cfg),
                    Verdict::No => spec_finalize(bump(hist, b, false), cands.drop_first(), reg, cfg),
                    Verdict::Invalid => Err(RunError::ResolutionInvalid),
                    _ => Err(RunError::InternalInvariant),
                }
            },
        }
    }
}

proof fn lemma_hist_sum_nonneg(hist: Seq<(u64, u64)>)
    ensures
        hist_sum(hist) >= 0,
    decreases hist.len(),
{
    if hist.len() > 0 {
        lemma_hist_sum_nonneg(hist.drop_first());
    }
}

proof fn lemma_hist_sum_update(hist: Seq<(u64, u64)>, b: int, cell: (u64, u64))
    requires
        0 <= b < hist.len(),
    ensures
        hist_sum(hist.update(b, cell)) == hist_sum(hist) - hist[b].0 - hist[b].1 + cell.0 + cell.1,
    decreases hist.len(),
{
    if b == 0 {
        assert(hist.update(0, cell).drop_first() =~= hist.drop_first());
    } else {
        assert(hist.update(b, cell).drop_first() =~= hist.drop_first().update(b - 1, cell));
        assert(hist.update(b, cell)[0] == hist[0]);
        lemma_hist_sum_update(hist.drop_first(), b - 1, cell);
        assert(hist.drop_first()[b - 1] == hist[b]);
    }
}

proof fn lemma_cell_le_sum(hist: Seq<(u64, u64)>, b: int)
    requires
        0 <= b < hist.len(),
    ensures
        hist[b].0 + hist[b].1 <= hist_sum(hist),
    decreases hist.len(),
{
    lemma_hist_sum_nonneg(hist.drop_first());
    if b > 0 {
        lemma_cell_le_sum(hist.drop_first(), b - 1);
        assert(hist.drop_first()[b - 1] == hist[b]);
    }
}

/// Nothing is counted twice and nothing is lost: adding up every
/// histogram cell gives back the number of processed events once the
/// orphaned, ineligible, voided and unresolved ones are taken away.
pub proof fn lemma_histogram_accounting(a: AccView)
    requires
        acc_wf(a),
    ensures
        hist_sum(a.hist) == a.total - a.orphaned - a.ineligible - a.voided - a.unresolved,
{
}

proof fn lemma_find_cand_found(cands: Seq<CandView>, qid: Seq<char>, ans: Option<Seq<char>>, i: int)
    requires
        0 <= i < cands.len(),
        cands[i].qid == qid && cands[i].ans == ans,
        forall|j: int|
            0 <= j < i ==> ((#[trigger] cands[j]).qid != qid || cands[j].ans != ans),
    ensures
        find_cand(cands, qid, ans) == i,
    decreases cands.len(),
{
    if i > 0 {
        assert(forall|j: int|
            0 <= j < i - 1 ==> ((#[trigger] cands.drop_first()[j]).qid != qid
                || cands.drop_first()[j].ans != ans));
        assert(cands.drop_first()[i - 1] == cands[i]);
        lemma_find_cand_found(cands.drop_first(), qid, ans, i - 1);
    }
}

proof fn lemma_find_cand_absent(cands: Seq<CandView>, qid: Seq<char>, ans: Option<Seq<char>>)
    requires
        forall|j: int|
            0 <= j < cands.len() ==> ((#[trigger] cands[j]).qid != qid || cands[j].ans != ans),
    ensures
        find_cand(cands, qid, ans) == -1,
    decreases cands.len(),
{
    if cands.len() > 0 {
        lemma_find_cand_absent(cands.drop_first(), qid, ans);
    }
}

/// Recording a probability for a key makes it the key's candidate.
pub proof fn lemma_upsert_prob(
    cands: Seq<CandView>,
    qid: Seq<char>,
    ans: Option<Seq<char>>,
    prob: u32,
)
    requires
        unique_cand_keys(cands),
    ensures
        cand_prob(upsert_cand(cands, qid, ans, prob), qid, ans) == Some(prob),
{
    let i = find_cand(cands, qid, ans);
    if i >= 0 {
        lemma_find_cand_in_range(cands, qid, ans);
        let up = cands.update(i, CandView { qid, ans, prob });
        assert(up[i].qid == qid && up[i].ans == ans);
        assert forall|j: int| 0 <= j < i implies ((#[trigger] up[j]).qid != qid || up[j].ans
            != ans) by {
            lemma_find_cand_first(cands, qid, ans, j);
        }
        lemma_find_cand_found(up, qid, ans, i);
    } else {
        let up = cands.push(CandView { qid, ans, prob });
        lemma_find_cand_none(cands, qid, ans);
        assert forall|j: int| 0 <= j < cands.len() implies ((#[trigger] up[j]).qid != qid
            || up[j].ans != ans) by {
            assert(up[j] == cands[j]);
        }
        assert(up[cands.len() as int].qid == qid && up[cands.len() as int].ans == ans);
        lemma_find_cand_found(up, qid, ans, cands.len() as int);
    }
}

proof fn lemma_find_cand_in_range(cands: Seq<CandView>, qid: Seq<char>, ans: Option<Seq<char>>)
    ensures
        find_cand(cands, qid, ans) >= 0 ==> find_cand(cands, qid, ans) < cands.len()
            && cands[find_cand(cands, qid, ans)].qid == qid
            && cands[find_cand(cands, qid, ans)].ans == ans,
    decreases cands.len(),
{
    if cands.len() > 0 && !(cands[0].qid == qid && cands[0].ans == ans) {
        lemma_find_cand_in_range(cands.drop_first(), qid, ans);
        let r = find_cand(cands.drop_first(), qid, ans);
        if r >= 0 {
            assert(cands.drop_first()[r] == cands[r + 1]);
        }
    }
}

proof fn lemma_find_cand_first(cands: Seq<CandView>, qid: Seq<char>, ans: Option<Seq<char>>, j: int)
    requires
        0 <= j < find_cand(cands, qid, ans),
    ensures
        cands[j].qid != qid || cands[j].ans != ans,
    decreases cands.len(),
{
    lemma_find_cand_in_range(cands, qid, ans);
    if cands.len() > 0 && !(cands[0].qid == qid && cands[0].ans == ans) {
        if j > 0 {
            lemma_find_cand_first(cands.drop_first(), qid, ans, j - 1);
            assert(cands.drop_first()[j - 1] == cands[j]);
        }
    }
}

proof fn lemma_find_cand_none(cands: Seq<CandView>, qid: Seq<char>, ans: Option<Seq<char>>)
    requires
        find_cand(cands, qid, ans) < 0,
    ensures
        forall|j: int|
            0 <= j < cands.len() ==> ((#[trigger] cands[j]).qid != qid || cands[j].ans != ans),
    decreases cands.len(),
{
    if cands.len() > 0 {
        lemma_find_cand_none(cands.drop_first(), qid, ans);
        assert forall|j: int| 0 <= j < cands.len() implies ((#[trigger] cands[j]).qid != qid
            || cands[j].ans != ans) by {
            if j > 0 {
                assert(cands.drop_first()[j - 1] == cands[j]);
            }
        }
    }
}

/// The cutoff snapshot keeps the stream-latest probability: after two
/// determinate, cutoff-eligible events for the same (question, answer)
/// key, the key's candidate is the second event's probability,
/// whatever the first held.
pub proof fn lemma_cutoff_last_wins(
    acc: AccView,
    reg: Seq<Question>,
    e1: WagerEvent,
    e2: WagerEvent,
    cfg: Config,
)
    requires
        acc_wf(acc),
        e1.wf(),
        e1.question_id@ == e2.question_id@,
        e1.answer.deep_view() == e2.answer.deep_view(),
        spec_step(acc, reg, e1, cfg) is Ok,
        ({
            let a1 = spec_step(acc, reg, e1, cfg)->Ok_0;
            spec_step(a1, reg, e2, cfg) is Ok
        }),
        ({
            let q = lookup_last(reg, e2.question_id@);
            q is Some && eligible(q->Some_0) && cutoff_applies(q->Some_0, e2, cfg)
                && (resolve_verdict(q->Some_0.resolution, e2.answer.deep_view()) == Verdict::Yes
                || resolve_verdict(q->Some_0.resolution, e2.answer.deep_view()) == Verdict::No)
        }),
    ensures
        ({
            let a1 = spec_step(acc, reg, e1, cfg)->Ok_0;
            let a2 = spec_step(a1, reg, e2, cfg)->Ok_0;
            cand_prob(a2.cands, e2.question_id@, e2.answer.deep_view()) == Some(e2.prob_after)
        }),
{
    let a1 = spec_step(acc, reg, e1, cfg)->Ok_0;
    lemma_step_wf_cands(acc, reg, e1, cfg);
    lemma_upsert_prob(a1.cands, e2.question_id@, e2.answer.deep_view(), e2.prob_after);
}

/// Every retained candidate still resolves to a definite outcome
/// against the registry; the accumulator only ever retains such
/// candidates, so the final pass cannot meet a missing resolution.
pub open spec fn cands_resolved(cands: Seq<CandView>, reg: Seq<Question>) -> bool {
    forall|i: int|
        0 <= i < cands.len() ==> {
            let c = #[trigger] cands[i];
            let q = lookup_last(reg, c.qid);
            &&& q is Some
            &&& (resolve_verdict(q->Some_0.resolution, c.ans) == Verdict::Yes || resolve_verdict(
                q->Some_0.resolution,
                c.ans,
            ) == Verdict::No)
        }
}

/// One accumulator step retains only candidates whose question just
/// resolved to a definite outcome.
pub proof fn lemma_step_keeps_cands_resolved(
    acc: AccView,
    reg: Seq<Question>,
    e: WagerEvent,
    cfg: Config,
)
    requires
        cands_resolved(acc.cands, reg),
        spec_step(acc, reg, e, cfg) is Ok,
    ensures
        cands_resolved(spec_step(acc, reg, e, cfg)->Ok_0.cands, reg),
{
    let qid = e.question_id@;
    let ans = e.answer.deep_view();
    match lookup_last(reg, qid) {
        None => {},
        Some(q) => {
            if eligible(q) {
                match resolve_verdict(q.resolution, ans) {
                    Verdict::Yes | Verdict::No => {
                        if cutoff_applies(q, e, cfg) {
                            let up = upsert_cand(acc.cands, qid, ans, e.prob_after);
                            let i0 = find_cand(acc.cands, qid, ans);
                            lemma_find_cand_in_range(acc.cands, qid, ans);
                            assert forall|i: int| 0 <= i < up.len() implies {
                                let c = #[trigger] up[i];
                                let lq = lookup_last(reg, c.qid);
                                &&& lq is Some
                                &&& (resolve_verdict(lq->Some_0.resolution, c.ans) == Verdict::Yes
                                    || resolve_verdict(lq->Some_0.resolution, c.ans)
                                    == Verdict::No)
                            } by {
                                if i0 >= 0 && i == i0 {
                                    assert(up[i].qid == qid && up[i].ans == ans);
                                } else if i < acc.cands.len() {
                                    assert(up[i] == acc.cands[i]);
                                } else {
                                    assert(up[i].qid == qid && up[i].ans == ans);
                                }
                            }
                        }
                    },
                    _ => {},
                }
            }
        },
    }
}

/// On a candidate list whose keys all still resolve definitely, the
/// final pass cannot fail.
pub proof fn lemma_finalize_total(
    hist: Seq<(u64, u64)>,
    cands: Seq<CandView>,
    reg: Seq<Question>,
    cfg: Config,
)
    requires
        cands_resolved(cands, reg),
    ensures
        spec_finalize(hist, cands, reg, cfg) is Ok,
    decreases cands.len(),
{
    if cands.len() > 0 {
        assert(cands_resolved(cands.drop_first(), reg)) by {
            assert forall|i: int| 0 <= i < cands.drop_first().len() implies {
                let c = #[trigger] cands.drop_first()[i];
                let q = lookup_last(reg, c.qid);
                &&& q is Some
                &&& (resolve_verdict(q->Some_0.resolution, c.ans) == Verdict::Yes
                    || resolve_verdict(q->Some_0.resolution, c.ans) == Verdict::No)
            } by {
                assert(cands.drop_first()[i] == cands[i + 1]);
            }
        }
        let c = cands[0];
        let q = lookup_last(reg, c.qid)->Some_0;
        let b = coarse_bucket_of(c.prob as int, cfg.granularity as int);
        match resolve_verdict(q.resolution, c.ans) {
            Verdict::Yes => {
                lemma_finalize_total(bump(hist, b, true), cands.drop_first(), reg, cfg);
            },
            Verdict::No => {
                lemma_finalize_total(bump(hist, b, false), cands.drop_first(), reg, cfg);
            },
            _ => {},
        }
    }
}

/// Where an event lands in the full histogram, if anywhere: a
/// function of the registry and the event alone, never of the
/// accumulator's state.
pub open spec fn step_cell(reg: Seq<Question>, e: WagerEvent) -> Option<(int, bool)> {
    match lookup_last(reg, e.question_id@) {
        None => None,
        Some(q) => {
            if !eligible(q) {
                None
            } else {
                match resolve_verdict(q.resolution, e.answer.deep_view()) {
                    Verdict::Yes => Some((bucket_of(e.prob_after as int), true)),
                    Verdict::No => Some((bucket_of(e.prob_after as int), false)),
                    _ => None,
                }
            }
        },
    }
}

proof fn lemma_bump_commutes(h: Seq<(u64, u64)>, b1: int, y1: bool, b2: int, y2: bool)
    requires
        0 <= b1 < h.len(),
        0 <= b2 < h.len(),
    ensures
        bump(bump(h, b1, y1), b2, y2) =~= bump(bump(h, b2, y2), b1, y1),
{
}

/// The full-history histogram is order-invariant: exchanging two
/// adjacent events that both process successfully leaves it
/// unchanged; only the cutoff snapshot depends on stream order.
pub proof fn lemma_full_histogram_order_invariant(
    acc: AccView,
    reg: Seq<Question>,
    e1: WagerEvent,
    e2: WagerEvent,
    cfg: Config,
)
    requires
        acc.hist.len() == 101,
        e1.wf(),
        e2.wf(),
        spec_step(acc, reg, e1, cfg) is Ok,
        spec_step(acc, reg, e2, cfg) is Ok,
    ensures
        spec_step(spec_step(acc, reg, e1, cfg)->Ok_0, reg, e2, cfg) is Ok,
        spec_step(spec_step(acc, reg, e2, cfg)->Ok_0, reg, e1, cfg) is Ok,
        (spec_step(spec_step(acc, reg, e1, cfg)->Ok_0, reg, e2, cfg)->Ok_0).hist == (spec_step(
            spec_step(acc, reg, e2, cfg)->Ok_0,
            reg,
            e1,
            cfg,
        )->Ok_0).hist,
{
    lemma_bucket_range(e1.prob_after as int);
    lemma_bucket_range(e2.prob_after as int);
    let a1 = spec_step(acc, reg, e1, cfg)->Ok_0;
    let a2 = spec_step(acc, reg, e2, cfg)->Ok_0;
    assert(a1.hist == match step_cell(reg, e1) {
        Some(c) => bump(acc.hist, c.0, c.1),
        None => acc.hist,
    });
    assert(a2.hist == match step_cell(reg, e2) {
        Some(c) => bump(acc.hist, c.0, c.1),
        None => acc.hist,
    });
    assert(a1.hist.len() == 101 && a2.hist.len() == 101);
    assert(spec_step(a1, reg, e2, cfg) is Ok && spec_step(a2, reg, e1, cfg) is Ok);
    let a12 = spec_step(a1, reg, e2, cfg)->Ok_0;
    let a21 = spec_step(a2, reg, e1, cfg)->Ok_0;
    assert(a12.hist == match step_cell(reg, e2) {
        Some(c) => bump(a1.hist, c.0, c.1),
        None => a1.hist,
    });
    assert(a21.hist == match step_cell(reg, e1) {
        Some(c) => bump(a2.hist, c.0, c.1),
        None => a2.hist,
    });
    match (step_cell(reg, e1), step_cell(reg, e2)) {
        (Some(c1), Some(c2)) => {
            lemma_bump_commutes(acc.hist, c1.0, c1.1, c2.0, c2.1);
        },
        _ => {},
    }
}

proof fn lemma_upsert_keeps_unique(
    cands: Seq<CandView>,
    qid: Seq<char>,
    ans: Option<Seq<char>>,
    prob: u32,
)
    requires
        unique_cand_keys(cands),
        forall|k: int| 0 <= k < cands.len() ==> (#[trigger] cands[k]).prob <= crate::PROB_ONE,
        prob <= crate::PROB_ONE,
    ensures
        unique_cand_keys(upsert_cand(cands, qid, ans, prob)),
        forall|k: int|
            0 <= k < upsert_cand(cands, qid, ans, prob).len() ==> (#[trigger] upsert_cand(
                cands,
                qid,
                ans,
                prob,
            )[k]).prob <= crate::PROB_ONE,
{
    let i = find_cand(cands, qid, ans);
    lemma_find_cand_in_range(cands, qid, ans);
    if i >= 0 {
        let up = cands.update(i, CandView { qid, ans, prob });
        assert forall|a: int, b: int| 0 <= a < b < up.len() implies ((#[trigger] up[a]).qid
            != (#[trigger] up[b]).qid || up[a].ans != up[b].ans) by {
            assert(cands[a].qid == up[a].qid || a == i);
            assert(cands[b].qid == up[b].qid || b == i);
        }
    } else {
        lemma_find_cand_none(cands, qid, ans);
        let up = cands.push(CandView { qid, ans, prob });
        assert forall|a: int, b: int| 0 <= a < b < up.len() implies ((#[trigger] up[a]).qid
            != (#[trigger] up[b]).qid || up[a].ans != up[b].ans) by {
            if b < cands.len() {
                assert(up[a] == cands[a] && up[b] == cands[b]);
            } else {
                assert(up[a] == cands[a]);
            }
        }
    }
}

proof fn lemma_step_wf_cands(acc: AccView, reg: Seq<Question>, e: WagerEvent, cfg: Config)
    requires
        acc_wf(acc),
        e.wf(),
        spec_step(acc, reg, e, cfg) is Ok,
    ensures
        unique_cand_keys(spec_step(acc, reg, e, cfg)->Ok_0.cands),
{
    match lookup_last(reg, e.question_id@) {
        None => {},
        Some(q) => {
            if eligible(q) {
                match resolve_verdict(q.resolution, e.answer.deep_view()) {
                    Verdict::Yes | Verdict::No => {
                        if cutoff_applies(q, e, cfg) {
                            lemma_upsert_keeps_unique(
                                acc.cands,
                                e.question_id@,
                                e.answer.deep_view(),
                                e.prob_after,
                            );
                        }
                    },
                    _ => {},
                }
            }
        },
    }
}

/// One retained cutoff candidate.
pub struct CutoffEntry {
    /// Owning question id.
    pub question_id: String,
    /// Answer selector, as stored on the event.
    pub answer: Option<String>,
    /// Probability after the event, in basis points.
    pub prob: u32,
}

/// Model of a stored candidate.
pub open spec fn cand_of(e: CutoffEntry) -> CandView {
    CandView { qid: e.question_id@, ans: e.answer.deep_view(), prob: e.prob }
}

/// Run-scoped accumulator state, owned by the pipeline driver.
pub struct CalibrationAccumulator {
    histogram: Vec<(u64, u64)>,
    cutoff_candidates: Vec<CutoffEntry>,
    missing_ids: Vec<String>,
    total_events: u64,
    orphaned: u64,
    ineligible: u64,
    unresolved: u64,
    voided: u64,
}

impl View for CalibrationAccumulator {
    type V = AccView;

    closed spec fn view(&self) -> AccView {
        AccView {
            hist: self.histogram@,
            cands: self.cutoff_candidates@.map_values(|e: CutoffEntry| cand_of(e)),
            missing: self.missing_ids@.map_values(|s: String| s@),
            total: self.total_events,
            orphaned: self.orphaned,
            ineligible: self.ineligible,
            unresolved: self.unresolved,
            voided: self.voided,
        }
    }
}

proof fn lemma_hist_sum_zero(hist: Seq<(u64, u64)>)
    requires
        forall|i: int| 0 <= i < hist.len() ==> #[trigger] hist[i] == (0u64, 0u64),
    ensures
        hist_sum(hist) == 0,
    decreases hist.len(),
{
    if hist.len() > 0 {
        lemma_hist_sum_zero(hist.drop_first());
    }
}

/// A fresh 101-cell histogram of zero counts.
fn zero_histogram() -> (h: Vec<(u64, u64)>)
    ensures
        h@ == Seq::new(101, |i: int| (0u64, 0u64)),
{
    let mut h: Vec<(u64, u64)> = Vec::new();
    let mut i: usize = 0;
    while i < 101
        invariant
            0 <= i <= 101,
            h@.len() == i,
            forall|j: int| 0 <= j < i ==> #[trigger] h@[j] == (0u64, 0u64),
        decreases 101 - i,
    {
        h.push((0u64, 0u64));
        i = i + 1;
    }
    proof {
        assert(h@ =~= Seq::new(101, |i: int| (0u64, 0u64)));
    }
    h
}

/// Eligibility filter of the question.
pub fn question_eligible(q: &Question) -> (r: bool)
    ensures
        r == eligible(*q),
{
    let mech_ok = match &q.mechanism {
        Some(m) => str_eq(m.as_str(), "cpmm-1"),
        None => true,
    };
    let tag_ok = match &q.type_tag {
        Some(t) => str_contains(t.as_str(), "cpmm-1"),
        None => true,
    };
    let dur_ok = match q.close_time {
        Some(c) => (c as i128) - (q.created_time as i128) >= (MS_PER_WEEK as i128),
        None => true,
    };
    mech_ok && tag_ok && dur_ok
}

/// The cutoff test of an event against its question.
pub fn cutoff_test(q: &Question, e: &WagerEvent, cfg: &Config) -> (r: bool)
    ensures
        r == cutoff_applies(*q, *e, *cfg),
{
    let created_ok = e.created_time <= cfg.cutoff;
    let close_ok = match q.close_time {
        Some(c) => c >= cfg.cutoff,
        None => true,
    };
    let res_ok = if cfg.require_resolution_after_cutoff {
        match q.resolution_time {
            Some(t) => t >= cfg.cutoff,
            None => false,
        }
    } else {
        true
    };
    created_ok && close_ok && res_ok
}

impl CalibrationAccumulator {
    /// The accumulator's invariant holds of the state.
    pub open spec fn wf(self) -> bool {
        acc_wf(self@)
    }

    /// A fresh accumulator: all counts zero, no candidates.
    pub fn new() -> (r: Self)
        ensures
            r@ =~= init_acc(),
            r.wf(),
    {
        let r = CalibrationAccumulator {
            histogram: zero_histogram(),
            cutoff_candidates: Vec::new(),
            missing_ids: Vec::new(),
            total_events: 0,
            orphaned: 0,
            ineligible: 0,
            unresolved: 0,
            voided: 0,
        };
        proof {
            lemma_hist_sum_zero(r@.hist);
            assert(r@ =~= init_acc());
        }
        r
    }

    fn record_missing(&mut self, id: &String)
        ensures
            final(self)@ =~= (AccView {
                missing: insert_missing(old(self)@.missing, id@),
                ..old(self)@
            }),
    {
        let n = self.missing_ids.len();
        let mut i: usize = 0;
        while i < n
            invariant
                *self == *old(self),
                n == self.missing_ids@.len(),
                0 <= i <= n,
                forall|j: int| 0 <= j < i ==> (#[trigger] self.missing_ids@[j])@ != id@,
            decreases n - i,
        {
            if str_eq(self.missing_ids[i].as_str(), id.as_str()) {
                proof {
                    assert(self@.missing[i as int] == id@);
                    assert(contains_id(self@.missing, id@));
                }
                return ;
            }
            i = i + 1;
        }
        proof {
            assert forall|j: int| 0 <= j < self@.missing.len() implies self@.missing[j] != id@ by {
                assert(self@.missing[j] == self.missing_ids@[j]@);
            }
            assert(!contains_id(self@.missing, id@));
        }
        let ghost pre = self@;
        self.missing_ids.push(clone_string(id));
        proof {
            assert(self@.missing =~= pre.missing.push(id@));
            assert(self@ =~= AccView { missing: insert_missing(pre.missing, id@), ..pre });
        }
    }

    fn upsert_candidate(&mut self, e: &WagerEvent)
        requires
            e.wf(),
        ensures
            final(self)@ =~= (AccView {
                cands: upsert_cand(
                    old(self)@.cands,
                    e.question_id@,
                    e.answer.deep_view(),
                    e.prob_after,
                ),
                ..old(self)@
            }),
    {
        let ghost qid = e.question_id@;
        let ghost ans = e.answer.deep_view();
        let n = self.cutoff_candidates.len();
        let mut i: usize = 0;
        let mut found = false;
        while !found && i < n
            invariant
                *self == *old(self),
                n == self.cutoff_candidates@.len(),
                0 <= i <= n,
                qid == e.question_id@,
                ans == e.answer.deep_view(),
                forall|j: int|
                    0 <= j < i ==> ((#[trigger] self@.cands[j]).qid != qid || self@.cands[j].ans
                        != ans),
                found ==> i < n && self@.cands[i as int].qid == qid && self@.cands[i as int].ans
                    == ans,
            decreases n - i + (if found {
                0int
            } else {
                1int
            }),
        {
            let same_q = str_eq(
                self.cutoff_candidates[i].question_id.as_str(),
                e.question_id.as_str(),
            );
            let same_a = opt_str_eq(&self.cutoff_candidates[i].answer, &e.answer);
            if same_q && same_a {
                found = true;
            } else {
                proof {
                    assert(self@.cands[i as int].qid == self.cutoff_candidates@[i as int].question_id@);
                }
                i = i + 1;
            }
        }
        let entry = CutoffEntry {
            question_id: clone_string(&e.question_id),
            answer: clone_opt_string(&e.answer),
            prob: e.prob_after,
        };
        let ghost pre = self@;
        if found {
            proof {
                lemma_find_cand_found(pre.cands, qid, ans, i as int);
            }
            self.cutoff_candidates[i] = entry;
            proof {
                assert(cand_of(entry) =~= CandView { qid, ans, prob: e.prob_after });
                assert(self@.cands =~= pre.cands.update(
                    i as int,
                    CandView { qid, ans, prob: e.prob_after },
                ));
                assert(self@ =~= AccView {
                    cands: upsert_cand(pre.cands, qid, ans, e.prob_after),
                    ..pre
                });
            }
        } else {
            proof {
                lemma_find_cand_absent(pre.cands, qid, ans);
            }
            self.cutoff_candidates.push(entry);
            proof {
                assert(cand_of(entry) =~= CandView { qid, ans, prob: e.prob_after });
                assert(self@.cands =~= pre.cands.push(CandView { qid, ans, prob: e.prob_after }));
                assert(self@ =~= AccView {
                    cands: upsert_cand(pre.cands, qid, ans, e.prob_after),
                    ..pre
                });
            }
        }
    }

    /// Consumes one event in stream order, updating the histogram,
    /// the counters and the cutoff candidates exactly as the step
    /// model says; an invalid resolution is fatal and leaves the
    /// state unchanged.
    pub fn process_event(&mut self, reg: &MarketRegistry, e: &WagerEvent, cfg: &Config) -> (r:
        Result<(), RunError>)
        requires
            old(self).wf(),
            reg.wf(),
            e.wf(),
            old(self)@.total < u64::MAX,
        ensures
            final(self).wf(),
            match r {
                Ok(_) => spec_step(old(self)@, reg@, *e, *cfg) == Ok::<AccView, RunError>(
                    final(self)@,
                ),
                Err(er) => spec_step(old(self)@, reg@, *e, *cfg) == Err::<AccView, RunError>(er)
                    && final(self)@ == old(self)@,
            },
    {
        let ghost pre = self@;
        proof {
            lemma_hist_sum_nonneg(pre.hist);
        }
        let q_opt = reg.get(e.question_id.as_str());
        match q_opt {
            None => {
                self.total_events = self.total_events + 1;
                self.orphaned = self.orphaned + 1;
                self.record_missing(&e.question_id);
                proof {
                    assert(spec_step(pre, reg@, *e, *cfg) == Ok::<AccView, RunError>(self@)) by {
                        assert(self@ =~= AccView {
                            total: (pre.total + 1) as u64,
                            orphaned: (pre.orphaned + 1) as u64,
                            missing: insert_missing(pre.missing, e.question_id@),
                            ..pre
                        });
                    }
                }
                Ok(())
            },
            Some(q) => {
                if !question_eligible(q) {
                    self.total_events = self.total_events + 1;
                    self.ineligible = self.ineligible + 1;
                    proof {
                        assert(spec_step(pre, reg@, *e, *cfg) == Ok::<AccView, RunError>(self@))
                            by {
                            assert(self@ =~= AccView {
                                total: (pre.total + 1) as u64,
                                ineligible: (pre.ineligible + 1) as u64,
                                ..pre
                            });
                        }
                    }
                    return Ok(());
                }
                let answer: Option<&str> = match &e.answer {
                    Some(s) => Some(s.as_str()),
                    None => None,
                };
                proof {
                    assert(opt_str_view(answer) == e.answer.deep_view());
                }
                let v = resolve(q, answer);
                match v {
                    Verdict::Unresolved => {
                        self.total_events = self.total_events + 1;
                        self.unresolved = self.unresolved + 1;
                        proof {
                            assert(spec_step(pre, reg@, *e, *cfg) == Ok::<AccView, RunError>(
                                self@,
                            )) by {
                                assert(self@ =~= AccView {
                                    total: (pre.total + 1) as u64,
                                    unresolved: (pre.unresolved + 1) as u64,
                                    ..pre
                                });
                            }
                        }
                        Ok(())
                    },
                    Verdict::Voided => {
                        self.total_events = self.total_events + 1;
                        self.voided = self.voided + 1;
                        proof {
                            assert(spec_step(pre, reg@, *e, *cfg) == Ok::<AccView, RunError>(
                                self@,
                            )) by {
                                assert(self@ =~= AccView {
                                    total: (pre.total + 1) as u64,
                                    voided: (pre.voided + 1) as u64,
                                    ..pre
                                });
                            }
                        }
                        Ok(())
                    },
                    Verdict::Invalid => Err(RunError::ResolutionInvalid),
                    _ => {
                        let yes = match v {
                            Verdict::Yes => true,
                            _ => false,
                        };
                        self.total_events = self.total_events + 1;
                        let b = bucket(e.prob_after);
                        proof {
                            lemma_bucket_range(e.prob_after as int);
                            lemma_cell_le_sum(pre.hist, b as int);
                        }
                        let cell = self.histogram[b];
                        if yes {
                            self.histogram[b] = (cell.0 + 1, cell.1);
                        } else {
                            self.histogram[b] = (cell.0, cell.1 + 1);
                        }
                        let ghost mid = self@;
                        proof {
                            assert(mid.hist =~= bump(pre.hist, bucket_of(e.prob_after as int), yes));
                            lemma_hist_sum_update(
                                pre.hist,
                                b as int,
                                mid.hist[b as int],
                            );
                        }
                        if cutoff_test(q, e, cfg) {
                            self.upsert_candidate(e);
                            proof {
                                lemma_upsert_keeps_unique(
                                    pre.cands,
                                    e.question_id@,
                                    e.answer.deep_view(),
                                    e.prob_after,
                                );
                            }
                        }
                        proof {
                            assert(spec_step(pre, reg@, *e, *cfg) == Ok::<AccView, RunError>(
                                self@,
                            )) by {
                                let hist2 = bump(pre.hist, bucket_of(e.prob_after as int), yes);
                                let cands2 = if cutoff_applies(*q, *e, *cfg) {
                                    upsert_cand(
                                        pre.cands,
                                        e.question_id@,
                                        e.answer.deep_view(),
                                        e.prob_after,
                                    )
                                } else {
                                    pre.cands
                                };
                                assert(self@ =~= AccView {
                                    total: (pre.total + 1) as u64,
                                    hist: hist2,
                                    cands: cands2,
                                    ..pre
                                });
                            }
                        }
                        Ok(())
                    },
                }
            },
        }
    }

    /// The final pass: buckets each retained cutoff candidate at the
    /// configured coarse granularity under its re-resolved verdict,
    /// into a fresh 101-cell histogram.
    pub fn finalize(&self, reg: &MarketRegistry, cfg: &Config) -> (r: Result<
        Vec<(u64, u64)>,
        RunError,
    >)
        requires
            self.wf(),
            reg.wf(),
            cfg.wf(),
        ensures
            match r {
                Ok(h) => spec_finalize(init_acc().hist, self@.cands, reg@, *cfg) == Ok::<
                    Seq<(u64, u64)>,
                    RunError,
                >(h@) && h@.len() == 101,
                Err(er) => spec_finalize(init_acc().hist, self@.cands, reg@, *cfg) == Err::<
                    Seq<(u64, u64)>,
                    RunError,
                >(er),
            },
    {
        let ghost cands = self@.cands;
        let mut out = zero_histogram();
        proof {
            lemma_hist_sum_zero(out@);
            assert(out@ =~= init_acc().hist);
            assert(cands.skip(0) =~= cands);
        }
        let n = self.cutoff_candidates.len();
        let mut i: usize = 0;
        while i < n
            invariant
                self.wf(),
                reg.wf(),
                cfg.wf(),
                cands == self@.cands,
                n == self.cutoff_candidates@.len(),
                0 <= i <= n,
                out@.len() == 101,
                hist_sum(out@) <= i,
                spec_finalize(init_acc().hist, cands, reg@, *cfg) == spec_finalize(
                    out@,
                    cands.skip(i as int),
                    reg@,
                    *cfg,
                ),
            decreases n - i,
        {
            let ghost rest = cands.skip(i as int);
            proof {
                assert(rest.len() > 0);
                assert(rest[0] == cands[i as int]);
                assert(rest.drop_first() =~= cands.skip(i + 1));
                assert(cands[i as int] == cand_of(self.cutoff_candidates@[i as int]));
            }
            let entry = &self.cutoff_candidates[i];
            let q_opt = reg.get(entry.question_id.as_str());
            let q = match q_opt {
                None => {
                    return Err(RunError::InternalInvariant);
                },
                Some(q) => q,
            };
            proof {
                assert(self@.cands[i as int].prob <= crate::PROB_ONE);
            }
            let b = crate::bucket::coarse_bucket(entry.prob, cfg.granularity);
            proof {
                crate::bucket::lemma_coarse_bucket_range(entry.prob as int, cfg.granularity as int);
            }
            let answer: Option<&str> = match &entry.answer {
                Some(s) => Some(s.as_str()),
                None => None,
            };
            proof {
                assert(opt_str_view(answer) == rest[0].ans);
            }
            let v = resolve(q, answer);
            let ghost out_pre = out@;
            match v {
                Verdict::Yes => {
                    proof {
                        lemma_cell_le_sum(out@, b as int);
                    }
                    let cell = out[b];
                    out[b] = (cell.0 + 1, cell.1);
                    proof {
                        assert(out@ =~= bump(
                            out_pre,
                            coarse_bucket_of(rest[0].prob as int, cfg.granularity as int),
                            true,
                        ));
                        lemma_hist_sum_update(out_pre, b as int, out@[b as int]);
                    }
                },
                Verdict::No => {
                    proof {
                        lemma_cell_le_sum(out@, b as int);
                    }
                    let cell = out[b];
                    out[b] = (cell.0, cell.1 + 1);
                    proof {
                        assert(out@ =~= bump(
                            out_pre,
                            coarse_bucket_of(rest[0].prob as int, cfg.granularity as int),
                            false,
                        ));
                        lemma_hist_sum_update(out_pre, b as int, out@[b as int]);
                    }
                },
                Verdict::Invalid => {
                    return Err(RunError::ResolutionInvalid);
                },
                _ => {
                    return Err(RunError::InternalInvariant);
                },
            }
            i = i + 1;
        }
        proof {
            assert(cands.skip(n as int) =~= Seq::<CandView>::empty());
        }
        Ok(out)
    }

    /// Events processed.
    pub fn total_events(&self) -> (n: u64)
        ensures
            n == self@.total,
    {
        self.total_events
    }

    /// Events dropped because their question is unknown.
    pub fn orphaned_events(&self) -> (n: u64)
        ensures
            n == self@.orphaned,
    {
        self.orphaned
    }

    /// The full-history histogram.
    pub fn histogram(&self) -> (h: &Vec<(u64, u64)>)
        ensures
            h@ == self@.hist,
    {
        &self.histogram
    }

    /// The ids of questions that events referred to but the registry
    /// lacks, in first-seen order without repetition.
    pub fn missing_question_ids(&self) -> (ids: &Vec<String>)
        ensures
            ids@.map_values(|s: String| s@) == self@.missing,
    {
        &self.missing_ids
    }
}

} // verus!
