use point_exchange::exchange::PointExchange;
use point_exchange::points::PointTable;
use point_exchange::round::Application;
use point_exchange::ExchangeError;

const BILLION: u32 = 1_000_000_000;

fn table_of(entries: &[(u64, u64)]) -> PointTable {
    let mut t = PointTable::new();
    for (a, p) in entries {
        t.set_points(*a, *p);
    }
    t
}

fn points_of(list: &[Application]) -> Vec<u64> {
    list.iter().map(|a| a.points).collect()
}

fn accounts_of(list: &[Application]) -> Vec<u64> {
    list.iter().map(|a| a.account).collect()
}

#[test]
fn end_to_end_exact_split() {
    // Three applicants with points {50, 30, 20} apply to era 5 in that
    // order; settling with a mint of 100 gives the exact integer split.
    let table = table_of(&[(1, 50), (2, 30), (3, 20)]);
    let mut ex = PointExchange::new(10, 3, 3);
    assert_eq!(ex.get_current_era(50), 5);
    assert_eq!(ex.apply_exchange(50, 1, &table), Ok(()));
    assert_eq!(ex.apply_exchange(50, 2, &table), Ok(()));
    assert_eq!(ex.apply_exchange(50, 3, &table), Ok(()));
    let round = ex.get_reward_list(5);
    assert_eq!(accounts_of(&round), vec![1, 2, 3]);
    assert_eq!(points_of(&round), vec![50, 30, 20]);

    assert_eq!(ex.execute_exchange(60, 5, 100, &table), Ok(()));
    let settled = ex.get_reward_list(5);
    let takes: Vec<u64> = settled.iter().map(|a| a.settlement.unwrap().take_token).collect();
    assert_eq!(takes, vec![50, 30, 20]);
    let total: u64 = takes.iter().sum();
    assert_eq!(total, 100);
    for entry in &settled {
        let info = entry.settlement.unwrap();
        assert_eq!(info.pay_point, entry.points);
    }
}

#[test]
fn rounding_residue_goes_to_last_entry() {
    // Points {1, 1, 1} and a mint of 10: the first two entries each get
    // floor(10/3) = 3 and the last gets 10 - 6 = 4, for a total of exactly 10.
    let table = table_of(&[(1, 1), (2, 1), (3, 1)]);
    let mut ex = PointExchange::new(10, 3, 3);
    assert_eq!(ex.apply_exchange(50, 1, &table), Ok(()));
    assert_eq!(ex.apply_exchange(50, 2, &table), Ok(()));
    assert_eq!(ex.apply_exchange(50, 3, &table), Ok(()));
    assert_eq!(ex.execute_exchange(60, 5, 10, &table), Ok(()));
    let settled = ex.get_reward_list(5);
    let takes: Vec<u64> = settled.iter().map(|a| a.settlement.unwrap().take_token).collect();
    assert_eq!(takes, vec![3, 3, 4]);
    assert_eq!(takes.iter().sum::<u64>(), 10);
}

#[test]
fn proportions_sum_to_unit_fraction() {
    let table = table_of(&[(1, 7), (2, 5), (3, 2)]);
    let mut ex = PointExchange::new(10, 3, 3);
    assert_eq!(ex.apply_exchange(50, 1, &table), Ok(()));
    assert_eq!(ex.apply_exchange(50, 2, &table), Ok(()));
    assert_eq!(ex.apply_exchange(50, 3, &table), Ok(()));
    assert_eq!(ex.execute_exchange(60, 5, 1_000_003, &table), Ok(()));
    let settled = ex.get_reward_list(5);
    let parts: u32 = settled.iter().map(|a| a.settlement.unwrap().proportion.parts).sum();
    assert_eq!(parts, BILLION);
    let takes: u64 = settled.iter().map(|a| a.settlement.unwrap().take_token).sum();
    assert_eq!(takes, 1_000_003);
}

#[test]
fn single_applicant_takes_whole_pool() {
    let table = table_of(&[(9, 13)]);
    let mut ex = PointExchange::new(10, 3, 3);
    assert_eq!(ex.apply_exchange(50, 9, &table), Ok(()));
    assert_eq!(ex.execute_exchange(60, 5, 777, &table), Ok(()));
    let settled = ex.get_reward_list(5);
    assert_eq!(settled.len(), 1);
    let info = settled[0].settlement.unwrap();
    assert_eq!(info.take_token, 777);
    assert_eq!(info.proportion.parts, BILLION);
}

#[test]
fn eviction_requires_strictly_outranking_the_worst() {
    // Capacity 3 already full with {50, 30, 20}: an applicant with 25
    // points is admitted and evicts the 20-point entry.
    let table = table_of(&[(1, 50), (2, 30), (3, 20), (4, 25)]);
    let mut ex = PointExchange::new(10, 3, 3);
    assert_eq!(ex.apply_exchange(50, 1, &table), Ok(()));
    assert_eq!(ex.apply_exchange(50, 2, &table), Ok(()));
    assert_eq!(ex.apply_exchange(50, 3, &table), Ok(()));
    assert_eq!(ex.apply_exchange(50, 4, &table), Ok(()));
    let round = ex.get_reward_list(5);
    assert_eq!(accounts_of(&round), vec![1, 2, 4]);
    assert_eq!(points_of(&round), vec![50, 30, 25]);
}

#[test]
fn applicant_below_the_worst_is_rejected_at_capacity() {
    // Capacity 3 already full with {50, 30, 20}: an applicant with 15
    // points is rejected, since 15 <= 20.
    let table = table_of(&[(1, 50), (2, 30), (3, 20), (4, 15)]);
    let mut ex = PointExchange::new(10, 3, 3);
    assert_eq!(ex.apply_exchange(50, 1, &table), Ok(()));
    assert_eq!(ex.apply_exchange(50, 2, &table), Ok(()));
    assert_eq!(ex.apply_exchange(50, 3, &table), Ok(()));
    assert_eq!(
        ex.apply_exchange(50, 4, &table),
        Err(ExchangeError::InsufficientPoints)
    );
    let round = ex.get_reward_list(5);
    assert_eq!(points_of(&round), vec![50, 30, 20]);
}

#[test]
fn capacity_bound_holds_for_any_application_sequence() {
    let table = table_of(&[(1, 10), (2, 20), (3, 30), (4, 40), (5, 50), (6, 60)]);
    let mut ex = PointExchange::new(10, 3, 3);
    for who in 1..=6 {
        let _ = ex.apply_exchange(50, who, &table);
        assert!(ex.get_reward_list(5).len() <= 3);
    }
    let round = ex.get_reward_list(5);
    assert_eq!(points_of(&round), vec![60, 50, 40]);
}

#[test]
fn rounds_stay_sorted_by_points_descending() {
    let table = table_of(&[(1, 5), (2, 90), (3, 40), (4, 70)]);
    let mut ex = PointExchange::new(10, 5, 3);
    for who in 1..=4 {
        assert_eq!(ex.apply_exchange(50, who, &table), Ok(()));
        let round = ex.get_reward_list(5);
        for w in round.windows(2) {
            assert!(w[0].points >= w[1].points);
        }
    }
    assert_eq!(points_of(&ex.get_reward_list(5)), vec![90, 70, 40, 5]);
}

#[test]
fn duplicate_application_is_rejected() {
    let table = table_of(&[(1, 50)]);
    let mut ex = PointExchange::new(10, 3, 3);
    assert_eq!(ex.apply_exchange(50, 1, &table), Ok(()));
    assert_eq!(
        ex.apply_exchange(50, 1, &table),
        Err(ExchangeError::DuplicateApplication)
    );
    assert_eq!(ex.get_reward_list(5).len(), 1);
}

#[test]
fn settlement_is_strictly_monotonic() {
    // Settling era 5 and then an earlier era (or era 5 again) rejects.
    let table = table_of(&[(1, 50), (2, 30)]);
    let mut ex = PointExchange::new(10, 3, 10);
    assert_eq!(ex.apply_exchange(30, 1, &table), Ok(()));
    assert_eq!(ex.execute_exchange(40, 3, 10, &table), Ok(()));
    assert_eq!(ex.apply_exchange(50, 2, &table), Ok(()));
    assert_eq!(ex.execute_exchange(60, 5, 10, &table), Ok(()));
    assert_eq!(
        ex.execute_exchange(70, 3, 10, &table),
        Err(ExchangeError::AlreadySettled)
    );
    assert_eq!(
        ex.execute_exchange(70, 5, 10, &table),
        Err(ExchangeError::AlreadySettled)
    );
}

#[test]
fn applying_while_previous_era_is_unsettled_rejects() {
    let table = table_of(&[(1, 50), (2, 30)]);
    let mut ex = PointExchange::new(10, 3, 3);
    assert_eq!(ex.apply_exchange(40, 1, &table), Ok(()));
    assert_eq!(
        ex.apply_exchange(50, 2, &table),
        Err(ExchangeError::PreviousEraUnsettled)
    );
    // Once era 4 is settled, era 5 accepts applications.
    assert_eq!(ex.execute_exchange(50, 4, 10, &table), Ok(()));
    assert_eq!(ex.apply_exchange(50, 2, &table), Ok(()));
}

#[test]
fn genesis_era_never_accepts_applications() {
    let table = table_of(&[(1, 50)]);
    let mut ex = PointExchange::new(10, 3, 3);
    assert_eq!(ex.apply_exchange(9, 1, &table), Err(ExchangeError::InvalidEra));
}

#[test]
fn zero_points_is_rejected() {
    let table = table_of(&[(1, 50)]);
    let mut ex = PointExchange::new(10, 3, 3);
    assert_eq!(
        ex.apply_exchange(50, 2, &table),
        Err(ExchangeError::InsufficientPoints)
    );
}

#[test]
fn settling_a_running_era_rejects() {
    let table = table_of(&[(1, 50)]);
    let mut ex = PointExchange::new(10, 3, 3);
    assert_eq!(ex.apply_exchange(50, 1, &table), Ok(()));
    assert_eq!(
        ex.execute_exchange(59, 5, 10, &table),
        Err(ExchangeError::EraNotEnded)
    );
    assert_eq!(
        ex.execute_exchange(50, 6, 10, &table),
        Err(ExchangeError::EraNotEnded)
    );
}

#[test]
fn settling_an_era_without_a_round_rejects() {
    let table = table_of(&[(1, 50)]);
    let mut ex = PointExchange::new(10, 3, 3);
    assert_eq!(
        ex.execute_exchange(60, 5, 10, &table),
        Err(ExchangeError::EmptyRound)
    );
}

#[test]
fn applying_to_a_settled_round_rejects() {
    let table = table_of(&[(1, 50), (2, 60)]);
    let mut ex = PointExchange::new(10, 3, 3);
    assert_eq!(ex.apply_exchange(50, 1, &table), Ok(()));
    assert_eq!(ex.execute_exchange(60, 5, 10, &table), Ok(()));
    // The block counter regresses into era 5, whose round is now frozen.
    assert_eq!(
        ex.apply_exchange(55, 2, &table),
        Err(ExchangeError::AlreadySettled)
    );
}

#[test]
fn refresh_is_idempotent_within_a_block() {
    let mut table = table_of(&[(1, 50), (2, 30)]);
    let mut ex = PointExchange::new(10, 3, 3);
    assert_eq!(ex.apply_exchange(50, 1, &table), Ok(()));
    // The point source moves, but era 5 was already refreshed at block 50,
    // so the next application in the same block sees the old snapshot.
    table.set_points(1, 99);
    assert_eq!(ex.apply_exchange(50, 2, &table), Ok(()));
    assert_eq!(points_of(&ex.get_reward_list(5)), vec![50, 30]);
    // In a later block the refresh happens and re-reads account 1.
    table.set_points(3, 10);
    assert_eq!(ex.apply_exchange(51, 3, &table), Ok(()));
    assert_eq!(points_of(&ex.get_reward_list(5)), vec![99, 30, 10]);
}

#[test]
fn settlement_takes_a_final_point_snapshot() {
    let mut table = table_of(&[(1, 50)]);
    let mut ex = PointExchange::new(10, 3, 3);
    assert_eq!(ex.apply_exchange(50, 1, &table), Ok(()));
    table.set_points(1, 200);
    assert_eq!(ex.execute_exchange(60, 5, 40, &table), Ok(()));
    let settled = ex.get_reward_list(5);
    assert_eq!(settled[0].points, 200);
    assert_eq!(settled[0].settlement.unwrap().pay_point, 200);
    assert_eq!(settled[0].settlement.unwrap().take_token, 40);
}

#[test]
fn settled_rounds_fall_out_of_the_retention_window() {
    let table = table_of(&[(1, 50), (2, 30)]);
    let mut ex = PointExchange::new(10, 3, 3);
    assert_eq!(ex.apply_exchange(10, 1, &table), Ok(()));
    assert_eq!(ex.execute_exchange(20, 1, 10, &table), Ok(()));
    assert_eq!(ex.get_reward_list(1).len(), 1);
    assert_eq!(ex.apply_exchange(50, 2, &table), Ok(()));
    assert_eq!(ex.execute_exchange(60, 5, 10, &table), Ok(()));
    // With a history depth of 3, settling era 5 prunes eras up to 2.
    assert_eq!(ex.get_reward_list(1).len(), 0);
    assert_eq!(ex.get_reward_list(5).len(), 1);
}

#[test]
fn zero_point_total_pays_the_whole_pool_to_the_last_entry() {
    // If every snapshot refreshes to zero, the non-last entries get a zero
    // share and the last entry absorbs the entire pool.
    let mut table = table_of(&[(1, 40), (2, 10)]);
    let mut ex = PointExchange::new(10, 3, 3);
    assert_eq!(ex.apply_exchange(50, 1, &table), Ok(()));
    assert_eq!(ex.apply_exchange(50, 2, &table), Ok(()));
    table.set_points(1, 0);
    table.set_points(2, 0);
    assert_eq!(ex.execute_exchange(60, 5, 25, &table), Ok(()));
    let settled = ex.get_reward_list(5);
    let takes: Vec<u64> = settled.iter().map(|a| a.settlement.unwrap().take_token).collect();
    assert_eq!(takes, vec![0, 25]);
}

#[test]
fn a_zero_mint_settles_conserving_nothing() {
    let table = table_of(&[(1, 40), (2, 10)]);
    let mut ex = PointExchange::new(10, 3, 3);
    assert_eq!(ex.apply_exchange(50, 1, &table), Ok(()));
    assert_eq!(ex.apply_exchange(50, 2, &table), Ok(()));
    assert_eq!(ex.execute_exchange(60, 5, 0, &table), Ok(()));
    let settled = ex.get_reward_list(5);
    let takes: u64 = settled.iter().map(|a| a.settlement.unwrap().take_token).sum();
    assert_eq!(takes, 0);
    let parts: u32 = settled.iter().map(|a| a.settlement.unwrap().proportion.parts).sum();
    assert_eq!(parts, BILLION);
}

#[test]
fn a_rejected_settlement_changes_nothing() {
    let table = table_of(&[(1, 40)]);
    let mut ex = PointExchange::new(10, 3, 3);
    assert_eq!(ex.apply_exchange(50, 1, &table), Ok(()));
    let before = ex.get_reward_list(5);
    assert_eq!(
        ex.execute_exchange(59, 5, 10, &table),
        Err(ExchangeError::EraNotEnded)
    );
    let after = ex.get_reward_list(5);
    assert_eq!(accounts_of(&before), accounts_of(&after));
    assert_eq!(points_of(&before), points_of(&after));
    assert!(after[0].settlement.is_none());
}

#[test]
fn configuration_getters_report_the_injected_values() {
    let ex = PointExchange::new(10, 3, 7);
    assert_eq!(ex.get_era_length(), 10);
    assert_eq!(ex.get_max_reward_count(), 3);
    assert_eq!(ex.get_history_depth(), 7);
    assert_eq!(ex.get_current_era(0), 0);
    assert_eq!(ex.get_current_era(9), 0);
    assert_eq!(ex.get_current_era(10), 1);
    assert_eq!(ex.get_current_era(25), 2);
}
