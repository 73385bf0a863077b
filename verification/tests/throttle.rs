use cfmms::throttle::{RequestThrottle, PERIOD_MS};

fn run(limit: usize, requests: &[(usize, u64)]) -> Vec<(u64, usize)> {
    let mut throttle = RequestThrottle::new(limit);
    let mut issues = Vec::new();
    for (weight, now) in requests {
        assert!(throttle.clock_in_range(*now));
        let wait = throttle.reserve(*weight, *now);
        issues.push((*now + wait, *weight));
    }
    issues
}

fn most_in_a_second(issues: &[(u64, usize)]) -> usize {
    let mut most = 0;
    for (from, _) in issues {
        let within: usize = issues
            .iter()
            .filter(|(at, _)| from <= at && *at < from + PERIOD_MS)
            .map(|(_, weight)| *weight)
            .sum();
        most = most.max(within);
    }
    most
}

#[test]
fn period_is_one_second() {
    assert_eq!(PERIOD_MS, 1000);
}

#[test]
fn five_unit_refreshes_at_two_per_second_take_two_seconds() {
    let mut throttle = RequestThrottle::new(2);
    let mut now: u64 = 0;
    let mut sent = Vec::new();
    for _ in 0..5 {
        now += throttle.reserve(1, now);
        sent.push(now);
    }
    assert_eq!(sent, vec![0, 0, 1000, 1000, 2000]);
    assert!(now >= 2000);
}

#[test]
fn workers_that_ask_at_once_are_spread_over_bursts() {
    let mut throttle = RequestThrottle::new(2);
    let waits: Vec<u64> = (0..5).map(|_| throttle.reserve(1, 0)).collect();
    assert_eq!(waits, vec![0, 0, 1000, 1000, 2000]);
}

#[test]
fn a_throttle_that_is_off_never_asks_for_a_wait() {
    let mut throttle = RequestThrottle::new(0);
    assert_eq!(throttle.limit(), 0);
    for i in 0..1000u64 {
        assert_eq!(throttle.reserve(4, i / 10), 0);
    }
    assert_eq!(throttle.reserve(usize::MAX, 5), 0);
}

#[test]
fn a_burst_ends_one_second_after_its_last_issue() {
    let issues = run(2, &[(1, 0), (1, 999), (1, 1000), (1, 1998), (1, 1999)]);
    assert_eq!(issues, vec![(0, 1), (999, 1), (1999, 1), (1999, 1), (2999, 1)]);
}

#[test]
fn a_quiet_second_opens_a_new_burst_without_a_wait() {
    let issues = run(3, &[(3, 100), (3, 1100), (1, 5000), (2, 5001), (1, 5002)]);
    assert_eq!(issues, vec![(100, 3), (1100, 3), (5000, 1), (5001, 2), (6001, 1)]);
}

#[test]
fn weights_count_against_the_limit() {
    let issues = run(8, &[(4, 0), (4, 0), (4, 0), (1, 0), (4, 0)]);
    assert_eq!(issues, vec![(0, 4), (0, 4), (1000, 4), (1000, 1), (2000, 4)]);
}

#[test]
fn a_request_above_the_limit_is_sent_alone() {
    let issues = run(2, &[(1, 0), (4, 0), (1, 0), (1, 0)]);
    assert_eq!(issues, vec![(0, 1), (1000, 4), (2000, 1), (2000, 1)]);
}

#[test]
fn a_clock_that_steps_back_does_not_reorder_issues() {
    let issues = run(2, &[(1, 500), (1, 400), (1, 300)]);
    assert_eq!(issues, vec![(500, 1), (500, 1), (1500, 1)]);
}

#[test]
fn no_second_holds_more_than_the_limit() {
    let mut seed: u64 = 0x2545_f491_4f6c_dd1d;
    for limit in 1..6usize {
        let mut requests = Vec::new();
        let mut now: u64 = 0;
        for _ in 0..400 {
            seed = seed.wrapping_mul(6364136223846793005).wrapping_add(1442695040888963407);
            now += (seed >> 33) % 700;
            let weight = ((seed >> 20) as usize) % (limit + 1);
            requests.push((weight, now));
        }
        let issues = run(limit, &requests);
        assert!(most_in_a_second(&issues) <= limit);
        for (issue, request) in issues.iter().zip(requests.iter()) {
            assert!(issue.0 >= request.1);
        }
        for pair in issues.windows(2) {
            assert!(pair[0].0 <= pair[1].0);
        }
    }
}

#[test]
fn the_clock_has_room_up_to_one_period_below_its_end() {
    let mut throttle = RequestThrottle::new(1);
    assert!(throttle.clock_in_range(u64::MAX - PERIOD_MS));
    assert!(!throttle.clock_in_range(u64::MAX - PERIOD_MS + 1));
    assert_eq!(throttle.reserve(1, u64::MAX - PERIOD_MS - 1), 0);
    assert_eq!(throttle.reserve(1, u64::MAX - PERIOD_MS - 1), 1000);
    assert!(!throttle.clock_in_range(0));
}
