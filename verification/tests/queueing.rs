use realgeopolitics::queueing::{ArrivalPattern, DeskError, ServicePattern, ServiceDesk};

fn make_desk() -> ServiceDesk<f64> {
    ServiceDesk::new(2, 25).expect("failed to construct simulation for tests")
}

#[test]
fn queue_capacity_drops_excess_customers() {
    let mut sim = make_desk();
    sim.set_queue_capacity(2)
        .expect("queue capacity update should succeed");

    for _ in 0..5 {
        sim.spawn_customer(0.0);
    }

    assert_eq!(sim.arrivals(), 5);
    assert_eq!(sim.dropped(), 3);
    assert_eq!(sim.queue().len(), 2);
}

#[test]
fn reducing_server_count_requeues_busy_customers() {
    let mut sim = make_desk();
    sim.set_server_count(3, &[])
        .expect("initial server count update should succeed");

    for index in 0..3 {
        sim.spawn_customer(0.0);
        sim.try_start_service(index, 0.0, 1.0);
    }

    assert_eq!(
        sim.servers().iter().filter(|slot| slot.is_some()).count(),
        3
    );

    sim.set_server_count(1, &[0, 1, 2])
        .expect("reducing server count should succeed");

    assert_eq!(
        sim.servers().iter().filter(|slot| slot.is_some()).count(),
        1
    );
    assert!(
        sim.queue().len() >= 2,
        "remaining customers should be re-queued"
    );
    assert_eq!(
        sim.dropped(),
        0,
        "no customers should be dropped during reconfiguration"
    );
}

#[test]
fn desk_rejects_zero_servers_and_zero_room() {
    assert_eq!(ServiceDesk::<f64>::new(0, 5).err(), Some(DeskError::NoServers));
    assert_eq!(ServiceDesk::<f64>::new(0, 0).err(), Some(DeskError::NoServers));
    assert_eq!(ServiceDesk::<f64>::new(3, 0).err(), Some(DeskError::NoQueueRoom));
    let mut desk = make_desk();
    assert_eq!(desk.set_server_count(0, &[]), Err(DeskError::NoServers));
    assert_eq!(desk.set_queue_capacity(0), Err(DeskError::NoQueueRoom));
    assert_eq!(desk.server_count(), 2);
    assert_eq!(desk.queue_capacity(), 25);
}

#[test]
fn customers_get_numbers_in_arrival_order() {
    let mut desk = make_desk();
    assert_eq!(desk.next_customer_id(), 1);
    desk.spawn_customer(0.5);
    desk.spawn_customer(1.5);
    let ids: Vec<u64> = desk.queue().iter().map(|c| c.id).collect();
    assert_eq!(ids, vec![1, 2]);
    assert_eq!(desk.next_customer_id(), 3);
    assert!(desk.try_start_service(1, 2.0, 4.0));
    let state = desk.servers()[1].expect("server 1 busy");
    assert_eq!(state.customer.id, 1);
    assert_eq!(state.started_at, 2.0);
    assert_eq!(desk.queue_len(), 1);
    assert_eq!(desk.in_service(), 1);
}

#[test]
fn finishing_service_counts_the_customer_once() {
    let mut desk = make_desk();
    desk.spawn_customer(0.0);
    assert!(desk.try_start_service(0, 0.0, 3.0));
    desk.set_remaining(0, 1.0);
    assert_eq!(desk.servers()[0].map(|s| s.service_remaining), Some(1.0));
    let done = desk.finish_service(0);
    assert_eq!(done.customer.id, 1);
    assert_eq!(done.service_total, 3.0);
    assert_eq!(desk.served(), 1);
    assert_eq!(desk.in_service(), 0);
    assert!(!desk.try_start_service(0, 1.0, 1.0));
    assert_eq!(
        desk.arrivals(),
        desk.served() + desk.dropped() + desk.queue_len() as u64 + desk.in_service() as u64
    );
}

#[test]
fn fewer_servers_send_the_latest_back_first_and_turn_away_beyond_room() {
    let mut desk: ServiceDesk<f64> = ServiceDesk::new(3, 1).expect("desk");
    for index in 0..3 {
        desk.spawn_customer(index as f64);
        assert!(desk.try_start_service(index, index as f64, 5.0));
    }
    desk.set_server_count(1, &[2, 0, 1]).expect("fewer servers");
    assert_eq!(desk.servers().len(), 1);
    assert_eq!(desk.servers()[0].map(|s| s.customer.id), Some(3));
    let waiting: Vec<u64> = desk.queue().iter().map(|c| c.id).collect();
    assert_eq!(waiting, vec![2]);
    assert_eq!(desk.dropped(), 1);
    assert_eq!(
        desk.arrivals(),
        desk.served() + desk.dropped() + desk.queue_len() as u64 + desk.in_service() as u64
    );
}

#[test]
fn more_servers_pack_busy_ones_first() {
    let mut desk: ServiceDesk<f64> = ServiceDesk::new(2, 4).expect("desk");
    desk.spawn_customer(0.0);
    assert!(desk.try_start_service(1, 0.0, 2.0));
    desk.set_server_count(4, &[1]).expect("more servers");
    assert_eq!(desk.server_count(), 4);
    assert_eq!(desk.servers()[0].map(|s| s.customer.id), Some(1));
    assert!(desk.servers()[1].is_none());
    assert_eq!(desk.set_server_count(4, &[0]), Ok(()));
}

#[test]
fn peak_queue_remembers_the_longest_line() {
    let mut desk = make_desk();
    desk.spawn_customer(0.0);
    desk.spawn_customer(0.0);
    desk.record_peak();
    assert_eq!(desk.peak_queue(), 2);
    assert!(desk.try_start_service(0, 0.0, 1.0));
    desk.record_peak();
    assert_eq!(desk.peak_queue(), 2);
}

#[test]
fn pattern_keys_round_trip() {
    for p in [ArrivalPattern::Deterministic, ArrivalPattern::Poisson, ArrivalPattern::Bursty] {
        assert_eq!(ArrivalPattern::from_key(p.value_key()), Ok(p));
    }
    for p in [ServicePattern::Deterministic, ServicePattern::Exponential, ServicePattern::Erlang] {
        assert_eq!(ServicePattern::from_key(p.value_key()), Ok(p));
    }
    assert_eq!(ArrivalPattern::default(), ArrivalPattern::Poisson);
    assert_eq!(ServicePattern::default(), ServicePattern::Exponential);
    assert_eq!(ArrivalPattern::Bursty.label(), "集中到着");
    assert_eq!(ServicePattern::Erlang.label(), "エルラン");
}

#[test]
fn unknown_pattern_keys_are_reported() {
    assert_eq!(
        ArrivalPattern::from_key("uniform"),
        Err("unsupported arrival pattern 'uniform'".to_string())
    );
    assert_eq!(
        ServicePattern::from_key("poisson"),
        Err("unsupported service pattern 'poisson'".to_string())
    );
}
