use vstd::prelude::*;

verus! {

/// The statistic by which a contest ranks its entries.
#[derive(Clone, Copy, Debug, PartialEq, Eq, Structural)]
pub enum ContestMetric {
    HighestROI,
    BestSuccessRate,
    MostVolume,
    MostFollowers,
}

/// Lifecycle of a contest. `Cancelled` is part of the model but no operation reaches it.
#[derive(Clone, Copy, Debug, PartialEq, Eq, Structural)]
pub enum ContestStatus {
    Active,
    Finalized,
    Cancelled,
}

/// Failures of the registry's operations.
#[derive(Clone, Copy, Debug, PartialEq, Eq, Structural)]
pub enum ContestError {
    NotFound,
    InvalidState,
    Unauthorized,
}

#[derive(Clone, Debug)]
pub struct Contest {
    pub id: u64,
    pub name: String,
    pub start_time: u64,
    pub end_time: u64,
    pub metric: ContestMetric,
    pub min_signals: u32,
    pub prize_pool: i128,
    pub status: ContestStatus,
}

/// A contest as a mathematical value.
pub struct ContestView {
    pub id: u64,
    pub name: Seq<char>,
    pub start_time: u64,
    pub end_time: u64,
    pub metric: ContestMetric,
    pub min_signals: u32,
    pub prize_pool: i128,
    pub status: ContestStatus,
}

impl View for Contest {
    type V = ContestView;

    open spec fn view(&self) -> ContestView {
        ContestView {
            id: self.id,
            name: self.name@,
            start_time: self.start_time,
            end_time: self.end_time,
            metric: self.metric,
            min_signals: self.min_signals,
            prize_pool: self.prize_pool,
            status: self.status,
        }
    }
}

impl ContestView {
    /// Whether a submission at time `now` falls inside the contest's window.
    pub open spec fn accepts_at(self, now: u64) -> bool {
        self.start_time <= now && now <= self.end_time
    }

    pub open spec fn with_status(self, status: ContestStatus) -> ContestView {
        ContestView { status, ..self }
    }
}

impl Contest {
    /// A copy of the record.
    pub fn duplicate(&self) -> (r: Contest)
        ensures
            r@ == self@,
    {
        Contest {
            id: self.id,
            name: self.name.clone(),
            start_time: self.start_time,
            end_time: self.end_time,
            metric: self.metric,
            min_signals: self.min_signals,
            prize_pool: self.prize_pool,
            status: self.status,
        }
    }
}

} // verus!
