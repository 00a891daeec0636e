use signal_registry::{
    calculate_score, distribute_prizes, new_entry, prize_share, select_winners, top_entries,
    ContestEntry, ContestError, ContestMetric, ContestRegistry, ContestStatus, PrizeRecord,
};

const ALICE: u64 = 11;
const BOB: u64 = 22;
const CAROL: u64 = 33;

fn entry(provider: u64, score: i128) -> ContestEntry {
    let mut e = new_entry(provider);
    e.score = score;
    e
}

fn registry_with(metric: ContestMetric, min_signals: u32, prize_pool: i128) -> (ContestRegistry, u64) {
    let mut reg = ContestRegistry::new();
    let id = reg.create_contest("weekly".to_string(), 100, 200, metric, min_signals, prize_pool);
    (reg, id)
}

#[test]
fn submissions_accumulate_exact_totals() {
    let (mut reg, id) = registry_with(ContestMetric::HighestROI, 1, 1000);
    assert_eq!(reg.submit_signal_to_contest(id, ALICE, ALICE, 7, 15, 300, true, 100), Ok(()));
    assert_eq!(reg.submit_signal_to_contest(id, ALICE, ALICE, 7, -4, 200, false, 150), Ok(()));
    assert_eq!(reg.submit_signal_to_contest(id, ALICE, ALICE, 9, 10, 500, true, 200), Ok(()));
    let e = reg.get_entry(id, ALICE).unwrap();
    assert_eq!(e.signals_submitted, vec![7, 7, 9]);
    assert_eq!(e.total_roi, 21);
    assert_eq!(e.total_volume, 1000);
    assert_eq!(e.score, 21);
    assert_eq!(reg.get_all_entries(id).len(), 1);
}

#[test]
fn first_submission_sets_rate_to_hundred_or_zero() {
    let (mut reg, id) = registry_with(ContestMetric::BestSuccessRate, 1, 0);
    reg.submit_signal_to_contest(id, ALICE, ALICE, 1, 0, 0, true, 120).unwrap();
    reg.submit_signal_to_contest(id, BOB, BOB, 2, 0, 0, false, 120).unwrap();
    let a = reg.get_entry(id, ALICE).unwrap();
    let b = reg.get_entry(id, BOB).unwrap();
    assert_eq!(a.success_rate, 100);
    assert_eq!(a.score, 100);
    assert_eq!(b.success_rate, 0);
    assert_eq!(b.score, 0);
}

#[test]
fn success_rate_is_rederived_with_truncation() {
    let (mut reg, id) = registry_with(ContestMetric::BestSuccessRate, 1, 0);
    let outcomes = [true, false, true, false];
    let expected = [100u32, 50, 66, 25];
    for i in 0..4 {
        reg.submit_signal_to_contest(id, ALICE, ALICE, i as u64, 0, 0, outcomes[i], 150).unwrap();
        assert_eq!(reg.get_entry(id, ALICE).unwrap().success_rate, expected[i]);
    }
}

#[test]
fn score_follows_the_metric() {
    let mut e = new_entry(ALICE);
    e.total_roi = -5;
    e.success_rate = 40;
    e.total_volume = 900;
    assert_eq!(calculate_score(&e, ContestMetric::HighestROI), -5);
    assert_eq!(calculate_score(&e, ContestMetric::BestSuccessRate), 40);
    assert_eq!(calculate_score(&e, ContestMetric::MostVolume), 900);
    assert_eq!(calculate_score(&e, ContestMetric::MostFollowers), 0);
}

#[test]
fn leaderboard_is_sorted_and_limited() {
    let (mut reg, id) = registry_with(ContestMetric::MostVolume, 1, 0);
    reg.submit_signal_to_contest(id, ALICE, ALICE, 1, 0, 50, true, 150).unwrap();
    reg.submit_signal_to_contest(id, BOB, BOB, 2, 0, 300, true, 150).unwrap();
    reg.submit_signal_to_contest(id, CAROL, CAROL, 3, 0, 120, true, 150).unwrap();
    let two = reg.get_leaderboard(id, 2).unwrap();
    assert_eq!(two.len(), 2);
    assert_eq!(two[0].provider, BOB);
    assert_eq!(two[1].provider, CAROL);
    let all = reg.get_leaderboard(id, 10).unwrap();
    let scores: Vec<i128> = all.iter().map(|e| e.score).collect();
    assert_eq!(scores, vec![300, 120, 50]);
    assert_eq!(reg.get_leaderboard(id, 0).unwrap().len(), 0);
    assert_eq!(reg.get_leaderboard(id + 1, 3).map(|v| v.len()), Err(ContestError::NotFound));
}

#[test]
fn equal_scores_keep_their_order() {
    let entries = vec![entry(ALICE, 5), entry(BOB, 9), entry(CAROL, 5)];
    let top = top_entries(&entries, 3);
    let order: Vec<u64> = top.iter().map(|e| e.provider).collect();
    assert_eq!(order, vec![BOB, ALICE, CAROL]);
}

#[test]
fn winners_are_ranked_by_score() {
    let entries = vec![entry(ALICE, 10), entry(BOB, 30), entry(CAROL, 20)];
    assert_eq!(select_winners(&entries), vec![BOB, CAROL, ALICE]);
}

#[test]
fn winners_are_at_most_three() {
    let entries = vec![entry(1, 4), entry(2, 8), entry(3, 6), entry(4, 7)];
    assert_eq!(select_winners(&entries), vec![2, 4, 3]);
    assert_eq!(select_winners(&Vec::new()), Vec::<u64>::new());
}

#[test]
fn prizes_follow_the_schedule() {
    let three = distribute_prizes(&vec![ALICE, BOB, CAROL], 1000);
    assert_eq!(
        three,
        vec![
            PrizeRecord { participant: ALICE, amount: 500 },
            PrizeRecord { participant: BOB, amount: 300 },
            PrizeRecord { participant: CAROL, amount: 200 },
        ]
    );
    let one = distribute_prizes(&vec![BOB], 1000);
    assert_eq!(one, vec![PrizeRecord { participant: BOB, amount: 500 }]);
    assert_eq!(distribute_prizes(&Vec::new(), 1000), Vec::new());
}

#[test]
fn prize_shares_truncate_toward_zero() {
    assert_eq!(prize_share(999, 50), 499);
    assert_eq!(prize_share(999, 30), 299);
    assert_eq!(prize_share(-999, 50), -499);
    assert_eq!(prize_share(-1001, 20), -200);
}

#[test]
fn finalize_before_end_is_refused() {
    let (mut reg, id) = registry_with(ContestMetric::HighestROI, 1, 1000);
    assert_eq!(reg.finalize_contest(id, 199), Err(ContestError::InvalidState));
    assert_eq!(reg.get_contest(id).unwrap().status, ContestStatus::Active);
}

#[test]
fn finalize_twice_is_refused() {
    let (mut reg, id) = registry_with(ContestMetric::HighestROI, 1, 1000);
    reg.submit_signal_to_contest(id, ALICE, ALICE, 1, 40, 0, true, 150).unwrap();
    assert_eq!(reg.finalize_contest(id, 200), Ok(vec![ALICE]));
    assert_eq!(reg.finalize_contest(id, 300), Err(ContestError::InvalidState));
    assert_eq!(reg.get_winners(id), Ok(vec![ALICE]));
}

#[test]
fn finalize_without_qualified_entries() {
    let (mut reg, id) = registry_with(ContestMetric::HighestROI, 2, 1000);
    reg.submit_signal_to_contest(id, ALICE, ALICE, 1, 40, 0, true, 150).unwrap();
    assert_eq!(reg.finalize_contest(id, 250), Ok(Vec::new()));
    assert_eq!(reg.get_contest(id).unwrap().status, ContestStatus::Finalized);
    assert_eq!(reg.get_prizes(id), Ok(Vec::new()));
}

#[test]
fn finalize_pays_qualified_winners() {
    let (mut reg, id) = registry_with(ContestMetric::HighestROI, 2, 1000);
    for (who, roi) in [(ALICE, 10i128), (BOB, 30), (CAROL, 20)] {
        reg.submit_signal_to_contest(id, who, who, 1, roi, 0, true, 150).unwrap();
        reg.submit_signal_to_contest(id, who, who, 2, roi, 0, true, 160).unwrap();
    }
    reg.submit_signal_to_contest(id, 44, 44, 3, 500, 0, true, 170).unwrap();
    assert_eq!(reg.finalize_contest(id, 200), Ok(vec![BOB, CAROL, ALICE]));
    assert_eq!(
        reg.get_prizes(id),
        Ok(vec![
            PrizeRecord { participant: BOB, amount: 500 },
            PrizeRecord { participant: CAROL, amount: 300 },
            PrizeRecord { participant: ALICE, amount: 200 },
        ])
    );
}

#[test]
fn finalize_unknown_contest() {
    let mut reg = ContestRegistry::new();
    assert_eq!(reg.finalize_contest(1, 10), Err(ContestError::NotFound));
    assert_eq!(reg.get_contest(0).map(|c| c.id), Err(ContestError::NotFound));
}

#[test]
fn contest_ids_increase() {
    let mut reg = ContestRegistry::new();
    let a = reg.create_contest("a".to_string(), 0, 10, ContestMetric::HighestROI, 0, 0);
    let b = reg.create_contest("b".to_string(), 0, 10, ContestMetric::MostVolume, 0, 0);
    assert_eq!(a, 1);
    assert_eq!(b, 2);
    assert!(a < b);
    assert_eq!(reg.active_contests(), vec![1, 2]);
    let c = reg.get_contest(b).unwrap();
    assert_eq!(c.name, "b");
    assert_eq!(c.metric, ContestMetric::MostVolume);
    assert_eq!(c.status, ContestStatus::Active);
}

#[test]
fn submission_outside_window_is_refused() {
    let (mut reg, id) = registry_with(ContestMetric::HighestROI, 1, 1000);
    reg.submit_signal_to_contest(id, ALICE, ALICE, 1, 5, 5, true, 100).unwrap();
    let before = reg.get_entry(id, ALICE).unwrap();
    assert_eq!(
        reg.submit_signal_to_contest(id, ALICE, ALICE, 2, 9, 9, true, 99),
        Err(ContestError::InvalidState)
    );
    assert_eq!(
        reg.submit_signal_to_contest(id, ALICE, ALICE, 2, 9, 9, true, 201),
        Err(ContestError::InvalidState)
    );
    let after = reg.get_entry(id, ALICE).unwrap();
    assert_eq!(after.signals_submitted, before.signals_submitted);
    assert_eq!(after.total_roi, before.total_roi);
    assert_eq!(after.total_volume, before.total_volume);
}

#[test]
fn submission_by_another_identity_is_refused() {
    let (mut reg, id) = registry_with(ContestMetric::HighestROI, 1, 1000);
    assert_eq!(
        reg.submit_signal_to_contest(id, BOB, ALICE, 1, 5, 5, true, 150),
        Err(ContestError::Unauthorized)
    );
    assert!(reg.get_entry(id, ALICE).is_none());
    assert_eq!(
        reg.submit_signal_to_contest(id + 5, ALICE, ALICE, 1, 5, 5, true, 150),
        Err(ContestError::NotFound)
    );
}
