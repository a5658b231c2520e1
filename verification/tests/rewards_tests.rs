use ridesharing_backend::identity::Identity;
use ridesharing_backend::ledger::{get_balance, Ledger, TOTAL_SUPPLY};
use ridesharing_backend::rewards::{check_driver_rewards, DriverStatsTable};
use ridesharing_backend::rides::Marketplace;

fn s(t: &str) -> String {
    t.to_string()
}

fn driver_label() -> String {
    candid::Principal::from_slice(&[7, 7, 7]).to_text()
}

fn rides_with_driver(n: u64, driver: &String) -> Marketplace {
    let mut m = Marketplace::new();
    for k in 0..n {
        let id = m.post_ride(s("owner"), s("A"), s("B"), 2, false, 1000 + k);
        assert_eq!(m.driver_join(id, driver.clone()), "Successfully joined as driver.");
    }
    m
}

#[test]
fn ten_rides_pay_one_batch_once() {
    let d = driver_label();
    let m = rides_with_driver(10, &d);
    let mut stats = DriverStatsTable::new();
    let mut ledger = Ledger::new();
    let r = check_driver_rewards(&mut stats, &m, &mut ledger, d.clone());
    assert_eq!(r, "🎉 Congratulations! 10 RDT tokens rewarded for completing 10 rides!");
    let ident = Identity::from_bytes(candid::Principal::from_slice(&[7, 7, 7]).as_slice().to_vec());
    assert_eq!(get_balance(&ledger, &ident), 10);
    assert_eq!(ledger.issued_supply, 10);
    let st = stats.get_stats(&d);
    assert_eq!(st.completed_rides, 10);
    assert_eq!(st.last_reward_at, 10);

    let again = check_driver_rewards(&mut stats, &m, &mut ledger, d.clone());
    assert_eq!(
        again,
        "🚗 You have completed 10 rides. Complete 10 more rides for your next reward."
    );
    assert_eq!(get_balance(&ledger, &ident), 10);
    assert_eq!(stats.get_stats(&d).last_reward_at, 10);
}

#[test]
fn below_a_batch_pays_nothing() {
    let d = driver_label();
    let m = rides_with_driver(3, &d);
    let mut stats = DriverStatsTable::new();
    let mut ledger = Ledger::new();
    let r = check_driver_rewards(&mut stats, &m, &mut ledger, d.clone());
    assert_eq!(r, "🚗 You have completed 3 rides. Complete 7 more rides for your next reward.");
    assert_eq!(ledger.issued_supply, 0);
    let st = stats.get_stats(&d);
    assert_eq!(st.completed_rides, 3);
    assert_eq!(st.last_reward_at, 0);
}

#[test]
fn twenty_three_rides_pay_two_batches() {
    let d = driver_label();
    let m = rides_with_driver(23, &d);
    let mut stats = DriverStatsTable::new();
    let mut ledger = Ledger::new();
    let r = check_driver_rewards(&mut stats, &m, &mut ledger, d.clone());
    assert_eq!(r, "🎉 Congratulations! 20 RDT tokens rewarded for completing 23 rides!");
    assert_eq!(ledger.issued_supply, 20);
    assert_eq!(stats.get_stats(&d).last_reward_at, 20);
}

#[test]
fn invalid_driver_label_pays_nothing() {
    let d = s("not a principal");
    let m = rides_with_driver(10, &d);
    let mut stats = DriverStatsTable::new();
    let mut ledger = Ledger::new();
    let r = check_driver_rewards(&mut stats, &m, &mut ledger, d.clone());
    assert_eq!(r, "❌ Error: Invalid driver ID");
    assert_eq!(ledger.issued_supply, 0);
    let st = stats.get_stats(&d);
    assert_eq!(st.completed_rides, 10);
    assert_eq!(st.last_reward_at, 0);
}

#[test]
fn reward_over_the_cap_is_refused() {
    let d = driver_label();
    let m = rides_with_driver(10, &d);
    let mut stats = DriverStatsTable::new();
    let mut ledger = Ledger::new();
    let whale = Identity::from_bytes(vec![9]);
    assert_eq!(ledger.mint(&whale, TOTAL_SUPPLY - 5), Ok(()));
    let r = check_driver_rewards(&mut stats, &m, &mut ledger, d.clone());
    assert_eq!(r, "❌ Reward failed: Exceeds total supply.");
    assert_eq!(ledger.issued_supply, TOTAL_SUPPLY - 5);
    let st = stats.get_stats(&d);
    assert_eq!(st.completed_rides, 10);
    assert_eq!(st.last_reward_at, 0);
}

#[test]
fn other_drivers_rides_do_not_count() {
    let d = driver_label();
    let other = candid::Principal::from_slice(&[8, 8]).to_text();
    let mut m = rides_with_driver(2, &d);
    let id = m.post_ride(s("owner"), s("A"), s("B"), 2, false, 2000);
    m.driver_join(id, other.clone());
    let mut stats = DriverStatsTable::new();
    let mut ledger = Ledger::new();
    let r = check_driver_rewards(&mut stats, &m, &mut ledger, d.clone());
    assert_eq!(r, "🚗 You have completed 2 rides. Complete 8 more rides for your next reward.");
    assert_eq!(stats.get_stats(&d).completed_rides, 2);
}
