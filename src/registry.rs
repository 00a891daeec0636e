use crate::contest::{Contest, ContestError, ContestMetric, ContestStatus, ContestView};
use crate::entry::{apply_submission, fresh_entry, new_entry, submitted, sums_fit, ContestEntry, EntryView};
use crate::prizes::{distribute_prizes, payouts, pool_fits, PrizeRecord};
use crate::ranking::{
    get_qualified_entries, is_top, lemma_qualified_all, is_top_providers, qualified, select_winners, top_entries, views,
    MAX_WINNERS,
};
use vstd::prelude::*;

verus! {

/// The index of `provider`'s entry in `s`, or -1 when it has none.
pub open spec fn entry_index(s: Seq<EntryView>, provider: u64) -> int {
    if exists|k: int| 0 <= k < s.len() && (#[trigger] s[k]).provider == provider {
        choose|k: int| 0 <= k < s.len() && (#[trigger] s[k]).provider == provider
    } else {
        -1
    }
}

/// Everything the registry holds about one contest.
pub struct ContestState {
    pub contest: ContestView,
    /// One entry per participant, in the order of their first submission.
    pub entries: Seq<EntryView>,
    pub winners: Seq<u64>,
    pub prizes: Seq<PrizeRecord>,
}

impl ContestState {
    pub open spec fn well_formed(self) -> bool {
        &&& forall|k: int| 0 <= k < self.entries.len() ==> (#[trigger] self.entries[k]).success_rate <= 100
        &&& forall|k1: int, k2: int|
            0 <= k1 < k2 < self.entries.len() ==> (#[trigger] self.entries[k1]).provider
                != (#[trigger] self.entries[k2]).provider
    }

    /// The entry of `provider`, if they have submitted.
    pub open spec fn entry_of(self, provider: u64) -> Option<EntryView> {
        let k = entry_index(self.entries, provider);
        if k >= 0 {
            Some(self.entries[k])
        } else {
            None
        }
    }

    /// The entry of `provider`, or a fresh one when they have not submitted.
    pub open spec fn current_entry(self, provider: u64) -> EntryView {
        match self.entry_of(provider) {
            Some(e) => e,
            None => fresh_entry(provider),
        }
    }

    /// The state after `provider` submits a signal: their entry is updated in place,
    /// or appended when it is their first submission.
    pub open spec fn with_submission(
        self,
        provider: u64,
        signal_id: u64,
        roi: int,
        volume: int,
        success: bool,
    ) -> ContestState {
        let k = entry_index(self.entries, provider);
        let e = submitted(
            self.current_entry(provider),
            signal_id,
            roi,
            volume,
            success,
            self.contest.metric,
        );
        ContestState {
            entries: if k >= 0 {
                self.entries.update(k, e)
            } else {
                self.entries.push(e)
            },
            ..self
        }
    }

    /// The state after finalization with winners `w`.
    pub open spec fn finalized(self, w: Seq<u64>) -> ContestState {
        ContestState {
            contest: self.contest.with_status(ContestStatus::Finalized),
            entries: self.entries,
            winners: w,
            prizes: payouts(w, self.contest.prize_pool as int),
        }
    }
}

/// The registry as a mathematical value: contest `id` is at index `id - 1`.
pub struct RegistryView {
    pub contests: Seq<ContestState>,
    /// Ids of the contests in the order of their creation.
    pub active: Seq<u64>,
    pub next_id: u64,
}

impl RegistryView {
    pub open spec fn valid(self) -> bool {
        &&& self.next_id == self.contests.len() + 1
        &&& forall|i: int|
            0 <= i < self.contests.len() ==> (#[trigger] self.contests[i]).contest.id == i + 1
                && self.contests[i].well_formed()
    }

    pub open spec fn has(self, id: u64) -> bool {
        1 <= id <= self.contests.len()
    }

    pub open spec fn state(self, id: u64) -> ContestState {
        self.contests[id - 1]
    }

    pub open spec fn with_state(self, id: u64, st: ContestState) -> RegistryView {
        RegistryView { contests: self.contests.update(id - 1, st), ..self }
    }

    /// The registry after a contest is created with the next id.
    pub open spec fn created(
        self,
        name: Seq<char>,
        start_time: u64,
        end_time: u64,
        metric: ContestMetric,
        min_signals: u32,
        prize_pool: i128,
    ) -> RegistryView {
        let c = ContestView {
            id: self.next_id,
            name,
            start_time,
            end_time,
            metric,
            min_signals,
            prize_pool,
            status: ContestStatus::Active,
        };
        RegistryView {
            contests: self.contests.push(
                ContestState { contest: c, entries: Seq::empty(), winners: Seq::empty(), prizes: Seq::empty() },
            ),
            active: self.active.push(self.next_id),
            next_id: (self.next_id + 1) as u64,
        }
    }

    /// Whether a submission by `provider` to contest `id` keeps their sums within `i128`.
    pub open spec fn submission_fits(self, id: u64, provider: u64, roi: int, volume: int) -> bool {
        self.has(id) ==> sums_fit(self.state(id).current_entry(provider), roi, volume)
    }

    /// Whether finalizing contest `id` can compute its prize shares within `i128`.
    pub open spec fn finalization_fits(self, id: u64) -> bool {
        self.has(id) ==> pool_fits(self.state(id).contest.prize_pool as int)
    }
}

struct ContestRecord {
    contest: Contest,
    entries: Vec<ContestEntry>,
    winners: Vec<u64>,
    prizes: Vec<PrizeRecord>,
}

impl View for ContestRecord {
    type V = ContestState;

    closed spec fn view(&self) -> ContestState {
        ContestState {
            contest: self.contest@,
            entries: views(self.entries@),
            winners: self.winners@,
            prizes: self.prizes@,
        }
    }
}

/// Contests, their entries, winners and prizes.
pub struct ContestRegistry {
    records: Vec<ContestRecord>,
    active: Vec<u64>,
    next_id: u64,
}

impl View for ContestRegistry {
    type V = RegistryView;

    closed spec fn view(&self) -> RegistryView {
        RegistryView {
            contests: self.records@.map_values(|r: ContestRecord| r@),
            active: self.active@,
            next_id: self.next_id,
        }
    }
}

proof fn lemma_entry_index_found(s: Seq<EntryView>, provider: u64, k: int)
    requires
        0 <= k < s.len(),
        s[k].provider == provider,
        forall|k1: int, k2: int|
            0 <= k1 < k2 < s.len() ==> (#[trigger] s[k1]).provider != (#[trigger] s[k2]).provider,
    ensures
        entry_index(s, provider) == k,
{
    let j = entry_index(s, provider);
    assert(0 <= j < s.len() && s[j].provider == provider);
    if j < k {
        assert(s[j].provider != s[k].provider);
    } else if j > k {
        assert(s[k].provider != s[j].provider);
    }
}

/// An accepted submission updates the submitter's entry by exactly that submission, adds an
/// entry only on their first submission, and leaves every other participant's entry as it was.
pub proof fn lemma_submission_updates_entry(
    st: ContestState,
    provider: u64,
    signal_id: u64,
    roi: int,
    volume: int,
    success: bool,
    other: u64,
)
    requires
        st.well_formed(),
        other != provider,
    ensures
        st.with_submission(provider, signal_id, roi, volume, success).entry_of(provider) == Some(
            submitted(st.current_entry(provider), signal_id, roi, volume, success, st.contest.metric),
        ),
        st.with_submission(provider, signal_id, roi, volume, success).entry_of(other) == st.entry_of(
            other,
        ),
        st.with_submission(provider, signal_id, roi, volume, success).entries.len() == st.entries.len()
            + (if st.entry_of(provider) is Some {
            0int
        } else {
            1int
        }),
        st.with_submission(provider, signal_id, roi, volume, success).contest == st.contest,
{
    let s = st.entries;
    let after = st.with_submission(provider, signal_id, roi, volume, success);
    let t = after.entries;
    let k = entry_index(s, provider);
    let e = submitted(st.current_entry(provider), signal_id, roi, volume, success, st.contest.metric);
    if k >= 0 {
        assert(s[k].provider == provider);
        assert(t == s.update(k, e));
        lemma_entry_index_found(t, provider, k);
    } else {
        assert(forall|j: int| 0 <= j < s.len() ==> (#[trigger] s[j]).provider != provider);
        assert(t == s.push(e));
        lemma_entry_index_found(t, provider, s.len() as int);
    }
    assert(forall|k1: int, k2: int|
        0 <= k1 < k2 < t.len() ==> (#[trigger] t[k1]).provider != (#[trigger] t[k2]).provider);
    let j = entry_index(s, other);
    if j >= 0 {
        assert(s[j].provider == other);
        assert(t[j] == s[j]);
        lemma_entry_index_found(t, other, j);
    } else {
        assert(forall|i: int| 0 <= i < s.len() ==> (#[trigger] s[i]).provider != other);
        assert(forall|i: int| 0 <= i < t.len() ==> (#[trigger] t[i]).provider != other);
    }
}

/// Once a contest is finalized it is no longer active, so finalizing it again is refused.
pub proof fn lemma_finalized_not_active(v: RegistryView, id: u64, w: Seq<u64>)
    requires
        v.valid(),
        v.has(id),
    ensures
        v.with_state(id, v.state(id).finalized(w)).has(id),
        v.with_state(id, v.state(id).finalized(w)).state(id).contest.status
            == ContestStatus::Finalized,
        v.with_state(id, v.state(id).finalized(w)).valid(),
{
    let after = v.with_state(id, v.state(id).finalized(w));
    assert(after.contests[id - 1] == v.state(id).finalized(w));
    assert forall|i: int| 0 <= i < after.contests.len() implies (#[trigger] after.contests[i]).contest.id
        == i + 1 && after.contests[i].well_formed() by {
        assert(v.contests[i].contest.id == i + 1 && v.contests[i].well_formed());
    }
}

/// Two contests created one after the other get distinct ids, the second larger by one.
pub proof fn lemma_created_ids_increase(
    v: RegistryView,
    name1: Seq<char>,
    name2: Seq<char>,
    start_time: u64,
    end_time: u64,
    metric: ContestMetric,
    min_signals: u32,
    prize_pool: i128,
)
    requires
        v.valid(),
        v.next_id + 1 < u64::MAX,
    ensures
        ({
            let first = v.created(name1, start_time, end_time, metric, min_signals, prize_pool);
            let second = first.created(name2, start_time, end_time, metric, min_signals, prize_pool);
            &&& first.valid()
            &&& second.valid()
            &&& v.next_id < first.next_id
            &&& first.next_id == v.next_id + 1
            &&& second.has(v.next_id) && second.has(first.next_id)
            &&& second.state(v.next_id).contest.id == v.next_id
            &&& second.state(first.next_id).contest.id == first.next_id
        }),
{
    let first = v.created(name1, start_time, end_time, metric, min_signals, prize_pool);
    let second = first.created(name2, start_time, end_time, metric, min_signals, prize_pool);
    assert forall|i: int| 0 <= i < first.contests.len() implies (#[trigger] first.contests[i]).contest.id
        == i + 1 && first.contests[i].well_formed() by {
        if i < v.contests.len() {
            assert(first.contests[i] == v.contests[i]);
        }
    }
    assert forall|i: int| 0 <= i < second.contests.len() implies (#[trigger] second.contests[i]).contest.id
        == i + 1 && second.contests[i].well_formed() by {
        if i < first.contests.len() {
            assert(second.contests[i] == first.contests[i]);
        }
    }
}

/// The position of `provider`'s entry among `entries`.
fn find_entry(entries: &Vec<ContestEntry>, provider: u64) -> (r: Option<usize>)
    requires
        forall|k1: int, k2: int|
            0 <= k1 < k2 < entries@.len() ==> (#[trigger] views(entries@)[k1]).provider
                != (#[trigger] views(entries@)[k2]).provider,
    ensures
        r matches Some(k) ==> k == entry_index(views(entries@), provider) && k < entries@.len(),
        r is None ==> entry_index(views(entries@), provider) == -1,
{
    let ghost s = views(entries@);
    let mut k: usize = 0;
    while k < entries.len()
        invariant
            k <= entries@.len(),
            s == views(entries@),
            forall|j: int| 0 <= j < k ==> (#[trigger] s[j]).provider != provider,
            forall|k1: int, k2: int|
                0 <= k1 < k2 < s.len() ==> (#[trigger] s[k1]).provider != (#[trigger] s[k2]).provider,
        decreases entries@.len() - k,
    {
        if entries[k].provider == provider {
            proof {
                lemma_entry_index_found(s, provider, k as int);
            }
            return Some(k);
        }
        k = k + 1;
    }
    None
}

impl ContestRegistry {
    pub open spec fn wf(&self) -> bool {
        self@.valid()
    }

    /// An empty registry whose first contest id is 1.
    pub fn new() -> (r: ContestRegistry)
        ensures
            r.wf(),
            r@.contests.len() == 0,
            r@.active.len() == 0,
            r@.next_id == 1,
    {
        let r = ContestRegistry { records: Vec::new(), active: Vec::new(), next_id: 1 };
        proof {
            assert(r@.contests =~= Seq::<ContestState>::empty());
        }
        r
    }

    /// The index of contest `contest_id` in the records.
    fn position(&self, contest_id: u64) -> (r: Option<usize>)
        requires
            self.wf(),
        ensures
            r is Some <==> self@.has(contest_id),
            r matches Some(i) ==> i == contest_id - 1 && i < self.records@.len()
                && self.records@[i as int]@ == self@.state(contest_id),
    {
        if contest_id == 0 || contest_id >= self.next_id {
            return None;
        }
        let n = self.records.len();
        proof {
            assert(self@.contests.len() == n);
        }
        let i = (contest_id - 1) as usize;
        proof {
            assert(self@.contests[i as int] == self.records@[i as int]@);
        }
        Some(i)
    }

    /// Hands out the next contest id and advances the counter.
    fn get_next_contest_id(&mut self) -> (id: u64)
        requires
            old(self).next_id < u64::MAX,
        ensures
            id == old(self).next_id,
            final(self).next_id == id + 1,
            final(self).records == old(self).records,
            final(self).active == old(self).active,
    {
        let id = self.next_id;
        self.next_id = id + 1;
        id
    }

    /// Creates an active contest under the next id and returns that id.
    pub fn create_contest(
        &mut self,
        name: String,
        start_time: u64,
        end_time: u64,
        metric: ContestMetric,
        min_signals: u32,
        prize_pool: i128,
    ) -> (id: u64)
        requires
            old(self).wf(),
            old(self)@.next_id < u64::MAX,
        ensures
            final(self).wf(),
            id == old(self)@.next_id,
            final(self)@ == old(self)@.created(name@, start_time, end_time, metric, min_signals, prize_pool),
    {
        let ghost before = self@;
        let contest_id = self.get_next_contest_id();
        let contest = Contest {
            id: contest_id,
            name,
            start_time,
            end_time,
            metric,
            min_signals,
            prize_pool,
            status: ContestStatus::Active,
        };
        let rec = ContestRecord { contest, entries: Vec::new(), winners: Vec::new(), prizes: Vec::new() };
        proof {
            assert(views(rec.entries@) =~= Seq::<EntryView>::empty());
        }
        self.records.push(rec);
        self.active.push(contest_id);
        proof {
            let after = before.created(name@, start_time, end_time, metric, min_signals, prize_pool);
            assert(self@.contests =~= after.contests);
        }
        contest_id
    }

    /// The record of contest `contest_id`.
    pub fn get_contest(&self, contest_id: u64) -> (r: Result<Contest, ContestError>)
        requires
            self.wf(),
        ensures
            r is Ok <==> self@.has(contest_id),
            r matches Ok(c) ==> c@ == self@.state(contest_id).contest,
            r matches Err(e) ==> e == ContestError::NotFound,
    {
        match self.position(contest_id) {
            None => Err(ContestError::NotFound),
            Some(i) => Ok(self.records[i].contest.duplicate()),
        }
    }

    /// Folds a signal into `provider`'s entry of contest `contest_id`, creating the entry
    /// on their first submission. `caller` is the identity that the host authenticated.
    pub fn submit_signal_to_contest(
        &mut self,
        contest_id: u64,
        caller: u64,
        provider: u64,
        signal_id: u64,
        roi: i128,
        volume: i128,
        is_successful: bool,
        now: u64,
    ) -> (r: Result<(), ContestError>)
        requires
            old(self).wf(),
            old(self)@.submission_fits(contest_id, provider, roi as int, volume as int),
        ensures
            final(self).wf(),
            r == Err::<(), ContestError>(ContestError::Unauthorized) <==> caller != provider,
            r == Err::<(), ContestError>(ContestError::NotFound) <==> caller == provider
                && !old(self)@.has(contest_id),
            r == Err::<(), ContestError>(ContestError::InvalidState) <==> caller == provider
                && old(self)@.has(contest_id) && !old(self)@.state(contest_id).contest.accepts_at(now),
            r is Ok <==> caller == provider && old(self)@.has(contest_id) && old(self)@.state(
                contest_id,
            ).contest.accepts_at(now),
            r is Ok ==> final(self)@ == old(self)@.with_state(
                contest_id,
                old(self)@.state(contest_id).with_submission(
                    provider,
                    signal_id,
                    roi as int,
                    volume as int,
                    is_successful,
                ),
            ),
            r is Err ==> final(self)@ == old(self)@,
    {
        if caller != provider {
            return Err(ContestError::Unauthorized);
        }
        let ci = match self.position(contest_id) {
            None => {
                return Err(ContestError::NotFound);
            },
            Some(i) => i,
        };
        let start_time = self.records[ci].contest.start_time;
        let end_time = self.records[ci].contest.end_time;
        let metric = self.records[ci].contest.metric;
        if now < start_time || now > end_time {
            return Err(ContestError::InvalidState);
        }
        let ghost before = self@;
        let ghost st = before.state(contest_id);
        proof {
            assert(before.contests[ci as int] == st);
            assert(st.well_formed());
        }
        let found = find_entry(&self.records[ci].entries, provider);
        let mut rec = self.records.remove(ci);
        let ghost old_entries = views(rec.entries@);
        match found {
            Some(k) => {
                proof {
                    assert(old_entries[k as int] == rec.entries@[k as int]@);
                }
                let mut e = rec.entries.remove(k);
                apply_submission(&mut e, signal_id, roi, volume, is_successful, metric);
                rec.entries.insert(k, e);
                proof {
                    assert(views(rec.entries@) =~= old_entries.update(k as int, e@));
                }
            },
            None => {
                let mut e = new_entry(provider);
                apply_submission(&mut e, signal_id, roi, volume, is_successful, metric);
                let ghost prior = rec.entries@;
                rec.entries.push(e);
                proof {
                    assert(views(rec.entries@) =~= views(prior).push(e@));
                }
            },
        }
        let ghost new_state = rec@;
        self.records.insert(ci, rec);
        proof {
            let expected = st.with_submission(provider, signal_id, roi as int, volume as int, is_successful);
            assert(new_state == expected);
            assert(self@.contests =~= before.contests.update(ci as int, expected));
            assert(expected.well_formed());
            assert(self@.valid());
        }
        Ok(())
    }

    /// Closes contest `contest_id` once its window has ended: ranks the entries that made at
    /// least the contest's minimum of submissions, names the best three as winners, records
    /// their prizes and marks the contest finalized. Returns the winners, best first.
    pub fn finalize_contest(&mut self, contest_id: u64, now: u64) -> (r: Result<Vec<u64>, ContestError>)
        requires
            old(self).wf(),
            old(self)@.finalization_fits(contest_id),
        ensures
            final(self).wf(),
            r matches Err(e) ==> e == ContestError::NotFound || e == ContestError::InvalidState,
            r matches Err(ContestError::NotFound) <==> !old(self)@.has(contest_id),
            r matches Err(ContestError::InvalidState) <==> old(self)@.has(contest_id) && (now
                < old(self)@.state(contest_id).contest.end_time || old(self)@.state(
                contest_id,
            ).contest.status != ContestStatus::Active),
            r is Ok <==> old(self)@.has(contest_id) && now >= old(self)@.state(
                contest_id,
            ).contest.end_time && old(self)@.state(contest_id).contest.status
                == ContestStatus::Active,
            r matches Ok(w) ==> is_top_providers(
                qualified(
                    old(self)@.state(contest_id).entries,
                    old(self)@.state(contest_id).contest.min_signals,
                ),
                MAX_WINNERS as int,
                w@,
            ) && final(self)@ == old(self)@.with_state(
                contest_id,
                old(self)@.state(contest_id).finalized(w@),
            ),
            r is Err ==> final(self)@ == old(self)@,
    {
        let ci = match self.position(contest_id) {
            None => {
                return Err(ContestError::NotFound);
            },
            Some(i) => i,
        };
        if now < self.records[ci].contest.end_time {
            return Err(ContestError::InvalidState);
        }
        if self.records[ci].contest.status != ContestStatus::Active {
            return Err(ContestError::InvalidState);
        }
        let ghost before = self@;
        let ghost st = before.state(contest_id);
        let min_signals = self.records[ci].contest.min_signals;
        let prize_pool = self.records[ci].contest.prize_pool;
        let entries = get_qualified_entries(&self.records[ci].entries, min_signals);
        let winners = select_winners(&entries);
        let prizes = distribute_prizes(&winners, prize_pool);
        let result = winners.clone();
        let mut rec = self.records.remove(ci);
        rec.contest.status = ContestStatus::Finalized;
        rec.winners = winners;
        rec.prizes = prizes;
        let ghost new_state = rec@;
        self.records.insert(ci, rec);
        proof {
            assert(before.contests[ci as int] == st);
            let expected = st.finalized(result@);
            assert(new_state == expected);
            assert(self@.contests =~= before.contests.update(ci as int, expected));
            assert(expected.well_formed());
            assert(self@.valid());
        }
        Ok(result)
    }

    /// The best `min(limit, n)` of the `n` entries of contest `contest_id`, best first.
    pub fn get_leaderboard(&self, contest_id: u64, limit: u32) -> (r: Result<
        Vec<ContestEntry>,
        ContestError,
    >)
        requires
            self.wf(),
        ensures
            r is Ok <==> self@.has(contest_id),
            r matches Ok(v) ==> is_top(self@.state(contest_id).entries, limit as int, views(v@)),
            r matches Err(e) ==> e == ContestError::NotFound,
    {
        match self.position(contest_id) {
            None => Err(ContestError::NotFound),
            Some(i) => Ok(top_entries(&self.records[i].entries, limit as usize)),
        }
    }

    /// Copies of all entries of contest `contest_id`, in the order of first submission;
    /// empty for an unknown contest.
    pub fn get_all_entries(&self, contest_id: u64) -> (r: Vec<ContestEntry>)
        requires
            self.wf(),
        ensures
            views(r@) == (if self@.has(contest_id) {
                self@.state(contest_id).entries
            } else {
                Seq::empty()
            }),
    {
        match self.position(contest_id) {
            None => {
                let r: Vec<ContestEntry> = Vec::new();
                proof {
                    assert(views(r@) =~= Seq::<EntryView>::empty());
                }
                r
            },
            Some(i) => {
                proof {
                    lemma_qualified_all(views(self.records@[i as int].entries@));
                }
                get_qualified_entries(&self.records[i].entries, 0)
            },
        }
    }

    /// The entry of `provider` in contest `contest_id`, if they have submitted to it.
    pub fn get_entry(&self, contest_id: u64, provider: u64) -> (r: Option<ContestEntry>)
        requires
            self.wf(),
        ensures
            r is Some <==> self@.has(contest_id) && self@.state(contest_id).entry_of(provider) is Some,
            r matches Some(e) ==> Some(e@) == self@.state(contest_id).entry_of(provider),
    {
        match self.position(contest_id) {
            None => None,
            Some(i) => {
                proof {
                    assert(self@.contests[i as int].well_formed());
                }
                match find_entry(&self.records[i].entries, provider) {
                    None => None,
                    Some(k) => Some(self.records[i].entries[k].duplicate()),
                }
            },
        }
    }

    /// The winners recorded for contest `contest_id`, best first.
    pub fn get_winners(&self, contest_id: u64) -> (r: Result<Vec<u64>, ContestError>)
        requires
            self.wf(),
        ensures
            r is Ok <==> self@.has(contest_id),
            r matches Ok(w) ==> w@ == self@.state(contest_id).winners,
            r matches Err(e) ==> e == ContestError::NotFound,
    {
        match self.position(contest_id) {
            None => Err(ContestError::NotFound),
            Some(i) => Ok(self.records[i].winners.clone()),
        }
    }

    /// The prizes recorded for contest `contest_id`, in rank order.
    pub fn get_prizes(&self, contest_id: u64) -> (r: Result<Vec<PrizeRecord>, ContestError>)
        requires
            self.wf(),
        ensures
            r is Ok <==> self@.has(contest_id),
            r matches Ok(p) ==> p@ == self@.state(contest_id).prizes,
            r matches Err(e) ==> e == ContestError::NotFound,
    {
        match self.position(contest_id) {
            None => Err(ContestError::NotFound),
            Some(i) => Ok(self.records[i].prizes.clone()),
        }
    }

    /// Ids of the contests, in the order of their creation.
    pub fn active_contests(&self) -> (r: Vec<u64>)
        ensures
            r@ == self@.active,
    {
        self.active.clone()
    }
}

} // verus!
