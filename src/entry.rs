use crate::contest::ContestMetric;
use vstd::prelude::*;

verus! {

/// One participant's running statistics within one contest.
#[derive(Clone, Debug)]
pub struct ContestEntry {
    pub provider: u64,
    pub signals_submitted: Vec<u64>,
    pub total_roi: i128,
    pub success_rate: u32,
    pub total_volume: i128,
    pub score: i128,
}

/// An entry as a mathematical value.
pub struct EntryView {
    pub provider: u64,
    pub signals: Seq<u64>,
    pub total_roi: int,
    pub success_rate: int,
    pub total_volume: int,
    pub score: int,
}

impl View for ContestEntry {
    type V = EntryView;

    open spec fn view(&self) -> EntryView {
        EntryView {
            provider: self.provider,
            signals: self.signals_submitted@,
            total_roi: self.total_roi as int,
            success_rate: self.success_rate as int,
            total_volume: self.total_volume as int,
            score: self.score as int,
        }
    }
}

/// The entry a participant starts from before their first submission.
pub open spec fn fresh_entry(provider: u64) -> EntryView {
    EntryView {
        provider,
        signals: Seq::empty(),
        total_roi: 0,
        success_rate: 0,
        total_volume: 0,
        score: 0,
    }
}

/// Success rate after a submission: `n` is the number of submissions including this one.
/// The previous successful count is reconstructed from the previous rate, with truncation.
pub open spec fn rate_after(old_rate: int, n: int, success: bool) -> int {
    let prior = old_rate * (n - 1) / 100;
    let successful = if success {
        prior + 1
    } else {
        prior
    };
    successful * 100 / n
}

/// The score of statistics under a metric; followers are not tracked and score zero.
pub open spec fn score_of(e: EntryView, metric: ContestMetric) -> int {
    match metric {
        ContestMetric::HighestROI => e.total_roi,
        ContestMetric::BestSuccessRate => e.success_rate,
        ContestMetric::MostVolume => e.total_volume,
        ContestMetric::MostFollowers => 0,
    }
}

/// The entry after one more submission, with its score refreshed.
pub open spec fn submitted(
    e: EntryView,
    signal_id: u64,
    roi: int,
    volume: int,
    success: bool,
    metric: ContestMetric,
) -> EntryView {
    let stats = EntryView {
        provider: e.provider,
        signals: e.signals.push(signal_id),
        total_roi: e.total_roi + roi,
        success_rate: rate_after(e.success_rate, e.signals.len() + 1 as int, success),
        total_volume: e.total_volume + volume,
        score: e.score,
    };
    EntryView { score: score_of(stats, metric), ..stats }
}

/// Whether a submission of `roi` and `volume` keeps the running sums within `i128`.
pub open spec fn sums_fit(e: EntryView, roi: int, volume: int) -> bool {
    i128::MIN <= e.total_roi + roi <= i128::MAX && i128::MIN <= e.total_volume + volume
        <= i128::MAX
}

proof fn lemma_rate_bounded(old_rate: int, n: int, success: bool)
    requires
        0 <= old_rate <= 100,
        n >= 1,
    ensures
        0 <= rate_after(old_rate, n, success) <= 100,
{
    let prior = old_rate * (n - 1) / 100;
    assert(0 <= old_rate * (n - 1) <= 100 * (n - 1)) by (nonlinear_arith)
        requires
            0 <= old_rate <= 100,
            n >= 1,
    ;
    assert(0 <= prior <= n - 1) by (nonlinear_arith)
        requires
            prior == old_rate * (n - 1) / 100,
            0 <= old_rate * (n - 1) <= 100 * (n - 1),
    ;
    let successful = if success {
        prior + 1
    } else {
        prior
    };
    assert(0 <= successful * 100 / n <= 100) by (nonlinear_arith)
        requires
            0 <= successful <= n,
            n >= 1,
    ;
}

impl ContestEntry {
    /// A copy of the entry.
    pub fn duplicate(&self) -> (r: ContestEntry)
        ensures
            r@ == self@,
    {
        ContestEntry {
            provider: self.provider,
            signals_submitted: self.signals_submitted.clone(),
            total_roi: self.total_roi,
            success_rate: self.success_rate,
            total_volume: self.total_volume,
            score: self.score,
        }
    }
}

/// One submission as values.
pub struct Submission {
    pub signal_id: u64,
    pub roi: int,
    pub volume: int,
    pub success: bool,
}

/// The entry after folding in `subs` in order.
pub open spec fn replay(e: EntryView, subs: Seq<Submission>, metric: ContestMetric) -> EntryView
    decreases subs.len(),
{
    if subs.len() == 0 {
        e
    } else {
        let s = subs.last();
        submitted(replay(e, subs.drop_last(), metric), s.signal_id, s.roi, s.volume, s.success, metric)
    }
}

pub open spec fn roi_sum(subs: Seq<Submission>) -> int
    decreases subs.len(),
{
    if subs.len() == 0 {
        0
    } else {
        roi_sum(subs.drop_last()) + subs.last().roi
    }
}

pub open spec fn volume_sum(subs: Seq<Submission>) -> int
    decreases subs.len(),
{
    if subs.len() == 0 {
        0
    } else {
        volume_sum(subs.drop_last()) + subs.last().volume
    }
}

/// After any sequence of submissions a participant's entry lists every submitted signal id,
/// duplicates included, in order, and its totals are the exact sums of the submitted values.
pub proof fn lemma_replay_totals(provider: u64, subs: Seq<Submission>, metric: ContestMetric)
    ensures
        replay(fresh_entry(provider), subs, metric).signals == subs.map_values(
            |s: Submission| s.signal_id,
        ),
        replay(fresh_entry(provider), subs, metric).signals.len() == subs.len(),
        replay(fresh_entry(provider), subs, metric).total_roi == roi_sum(subs),
        replay(fresh_entry(provider), subs, metric).total_volume == volume_sum(subs),
        replay(fresh_entry(provider), subs, metric).provider == provider,
    decreases subs.len(),
{
    if subs.len() > 0 {
        lemma_replay_totals(provider, subs.drop_last(), metric);
        assert(subs.drop_last().map_values(|s: Submission| s.signal_id).push(subs.last().signal_id)
            =~= subs.map_values(|s: Submission| s.signal_id));
    }
}

/// A first submission gives a success rate of 100 when it succeeded and 0 when it did not.
pub proof fn lemma_first_rate(provider: u64, signal_id: u64, roi: int, volume: int, metric: ContestMetric)
    ensures
        submitted(fresh_entry(provider), signal_id, roi, volume, true, metric).success_rate == 100,
        submitted(fresh_entry(provider), signal_id, roi, volume, false, metric).success_rate == 0,
{
    assert(fresh_entry(provider).signals.len() == 0);
    assert(rate_after(0, 1, true) == 100) by (nonlinear_arith);
    assert(rate_after(0, 1, false) == 0) by (nonlinear_arith);
}

/// An entry for `provider` with no submissions.
pub fn new_entry(provider: u64) -> (r: ContestEntry)
    ensures
        r@ == fresh_entry(provider),
{
    ContestEntry {
        provider,
        signals_submitted: Vec::new(),
        total_roi: 0,
        success_rate: 0,
        total_volume: 0,
        score: 0,
    }
}

/// The score of an entry's statistics under `metric`.
pub fn calculate_score(entry: &ContestEntry, metric: ContestMetric) -> (r: i128)
    ensures
        r as int == score_of(entry@, metric),
{
    match metric {
        ContestMetric::HighestROI => entry.total_roi,
        ContestMetric::BestSuccessRate => entry.success_rate as i128,
        ContestMetric::MostVolume => entry.total_volume,
        ContestMetric::MostFollowers => 0,
    }
}

/// Folds one submission into an entry: appends the signal, adds the sums,
/// re-derives the success rate and refreshes the score.
pub fn apply_submission(
    entry: &mut ContestEntry,
    signal_id: u64,
    roi: i128,
    volume: i128,
    is_successful: bool,
    metric: ContestMetric,
)
    requires
        old(entry).success_rate <= 100,
        sums_fit(old(entry)@, roi as int, volume as int),
    ensures
        final(entry)@ == submitted(old(entry)@, signal_id, roi as int, volume as int, is_successful, metric),
        final(entry).success_rate <= 100,
{
    let ghost old_rate = entry.success_rate as int;
    entry.signals_submitted.push(signal_id);
    entry.total_roi = entry.total_roi + roi;
    entry.total_volume = entry.total_volume + volume;
    let n: usize = entry.signals_submitted.len();
    let rate: u128 = entry.success_rate as u128;
    let earlier: u128 = (n - 1) as u128;
    proof {
        assert(rate * earlier <= 100 * earlier) by (nonlinear_arith)
            requires
                rate <= 100,
        ;
    }
    let prior: u128 = rate * earlier / 100;
    let successful: u128 = if is_successful {
        prior + 1
    } else {
        prior
    };
    proof {
        lemma_rate_bounded(old_rate, n as int, is_successful);
        assert(successful <= n) by (nonlinear_arith)
            requires
                prior == rate * earlier / 100,
                rate * earlier <= 100 * earlier,
                successful <= prior + 1,
                earlier + 1 == n,
        ;
        assert(successful * 100 <= n * 100) by (nonlinear_arith)
            requires
                successful <= n,
        ;
    }
    let new_rate: u128 = successful * 100 / (n as u128);
    entry.success_rate = new_rate as u32;
    entry.score = calculate_score(entry, metric);
}

} // verus!
