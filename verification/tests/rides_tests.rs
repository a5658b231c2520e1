use ridesharing_backend::rides::{
    collect_notifications, send_notifications, Marketplace, Notification, Ride, RideStatus,
};

fn s(t: &str) -> String {
    t.to_string()
}

#[test]
fn post_ride_then_join_until_full() {
    let mut m = Marketplace::new();
    let id = m.post_ride(s("alice"), s("A"), s("B"), 2, false, 1000);
    assert_eq!(id, "ride-1000");
    let rides = m.get_all_rides();
    assert_eq!(rides.len(), 1);
    assert_eq!(rides[0].riders, vec![s("alice")]);
    assert_eq!(rides[0].owner, "alice");
    assert!(rides[0].status == RideStatus::Open);
    assert!(!rides[0].is_driver);
    assert_eq!(rides[0].driver_id, None);
    assert_eq!(rides[0].max_riders, 2);
    assert_eq!(rides[0].created_at, 1000);

    let r = m.request_to_join(id.clone(), s("bob"));
    assert_eq!(r, "Request sent to ride owner.");
    let rides = m.get_all_rides();
    assert_eq!(rides[0].riders, vec![s("alice"), s("bob")]);
    let notes = m.get_notifications(s("alice"));
    assert_eq!(notes, vec![s("User bob requested to join your ride.")]);

    let r = m.request_to_join(id.clone(), s("carol"));
    assert_eq!(r, "Ride is full.");
    assert_eq!(m.get_all_rides()[0].riders, vec![s("alice"), s("bob")]);
    assert_eq!(m.get_notifications(s("alice")).len(), 1);
}

#[test]
fn joining_twice_is_rejected_without_duplicate() {
    let mut m = Marketplace::new();
    let id = m.post_ride(s("alice"), s("A"), s("B"), 3, false, 7);
    assert_eq!(m.request_to_join(id.clone(), s("bob")), "Request sent to ride owner.");
    assert_eq!(
        m.request_to_join(id.clone(), s("bob")),
        "You are already part of this ride."
    );
    assert_eq!(m.get_all_rides()[0].riders, vec![s("alice"), s("bob")]);
    assert_eq!(m.get_notifications(s("alice")).len(), 1);
}

#[test]
fn join_unknown_ride_fails() {
    let mut m = Marketplace::new();
    assert_eq!(m.request_to_join(s("ride-1"), s("bob")), "Ride not found.");
    assert_eq!(m.get_all_rides().len(), 0);
}

#[test]
fn post_ride_as_driver_sets_driver() {
    let mut m = Marketplace::new();
    m.post_ride(s("dave"), s("A"), s("B"), 4, true, 11);
    let rides = m.get_all_rides();
    assert!(rides[0].is_driver);
    assert_eq!(rides[0].driver_id, Some(s("dave")));
}

#[test]
fn accept_rider_checks_owner_and_capacity() {
    let mut m = Marketplace::new();
    let id = m.post_ride(s("alice"), s("A"), s("B"), 2, false, 5);
    assert_eq!(
        m.accept_rider(id.clone(), s("mallory"), s("carol")),
        "Only the ride owner can accept requests."
    );
    assert_eq!(m.accept_rider(id.clone(), s("alice"), s("carol")), "User added to the ride.");
    assert_eq!(m.get_all_rides()[0].riders, vec![s("alice"), s("carol")]);
    assert_eq!(
        m.get_notifications(s("carol")),
        vec![s("Your request to join the ride has been accepted.")]
    );
    assert_eq!(m.accept_rider(id.clone(), s("alice"), s("erin")), "Ride is already full.");
    assert_eq!(m.accept_rider(s("ride-9"), s("alice"), s("erin")), "Ride not found.");
}

#[test]
fn driver_join_notifies_owner_and_riders() {
    let mut m = Marketplace::new();
    let id = m.post_ride(s("alice"), s("A"), s("B"), 3, false, 5);
    m.request_to_join(id.clone(), s("bob"));
    assert_eq!(m.driver_join(id.clone(), s("dave")), "Successfully joined as driver.");
    let rides = m.get_all_rides();
    assert!(rides[0].is_driver);
    assert_eq!(rides[0].driver_id, Some(s("dave")));
    assert_eq!(rides[0].riders, vec![s("alice"), s("bob")]);
    let alice_notes = m.get_notifications(s("alice"));
    assert_eq!(
        alice_notes,
        vec![
            s("User bob requested to join your ride."),
            s("Driver dave has joined your ride."),
        ]
    );
    assert_eq!(
        m.get_notifications(s("bob")),
        vec![s("A driver has joined your ride.")]
    );
    assert_eq!(m.driver_join(id.clone(), s("erin")), "Ride already has a driver.");
    assert_eq!(m.driver_join(s("ride-9"), s("erin")), "Ride not found.");
}

#[test]
fn delete_ride_removes_and_notifies_every_rider() {
    let mut m = Marketplace::new();
    let id = m.post_ride(s("alice"), s("A"), s("B"), 3, false, 5);
    m.request_to_join(id.clone(), s("bob"));
    assert_eq!(
        m.delete_ride(id.clone(), s("mallory")),
        "Only the ride owner can delete the ride."
    );
    assert_eq!(m.get_all_rides().len(), 1);
    assert_eq!(m.delete_ride(id.clone(), s("alice")), "Ride deleted successfully.");
    assert_eq!(m.get_all_rides().len(), 0);
    assert_eq!(
        m.get_notifications(s("bob")),
        vec![s("A ride you joined has been deleted.")]
    );
    assert_eq!(
        m.get_notifications(s("alice")).last().unwrap(),
        "A ride you joined has been deleted."
    );
    assert_eq!(m.delete_ride(id, s("alice")), "Ride not found.");
}

#[test]
fn cancel_ride_deletes_like_delete_ride() {
    let mut m = Marketplace::new();
    let id = m.post_ride(s("alice"), s("A"), s("B"), 2, false, 5);
    assert_eq!(m.cancel_ride(id, s("alice")), "Ride deleted successfully.");
    assert_eq!(m.get_all_rides().len(), 0);
}

#[test]
fn search_is_case_insensitive_substring() {
    let mut m = Marketplace::new();
    m.post_ride(s("alice"), s("Berlin"), s("Hamburg"), 2, false, 1);
    m.post_ride(s("bob"), s("Paris"), s("Lyon"), 2, false, 2);
    let hits = m.search_rides(Some(s("BER")), None, None);
    assert_eq!(hits.len(), 1);
    assert_eq!(hits[0].origin, "Berlin");
    let hits = m.search_rides(Some(s("lin")), None, None);
    assert_eq!(hits.len(), 1);
    let hits = m.search_rides(None, Some(s("HAMBURG")), None);
    assert_eq!(hits.len(), 1);
    assert_eq!(hits[0].destination, "Hamburg");
    let hits = m.search_rides(None, None, Some(RideStatus::Open));
    assert_eq!(hits.len(), 2);
    let hits = m.search_rides(None, None, Some(RideStatus::Completed));
    assert_eq!(hits.len(), 0);
    let hits = m.search_rides(Some(s("xyz")), None, None);
    assert_eq!(hits.len(), 0);
    let hits = m.search_rides(None, None, None);
    assert_eq!(hits.len(), 2);
    let hits = m.search_rides(Some(s("ber")), Some(s("ham")), Some(RideStatus::Open));
    assert_eq!(hits.len(), 1);
}

#[test]
fn collect_and_send_notifications_fan_out() {
    let ride = Ride {
        ride_id: s("ride-1"),
        riders: vec![s("alice"), s("bob")],
        origin: s("A"),
        destination: s("B"),
        owner: s("alice"),
        is_driver: false,
        driver_id: None,
        status: RideStatus::Open,
        max_riders: 2,
        created_at: 1,
    };
    let pairs = collect_notifications(&ride, "hello");
    assert_eq!(pairs.len(), 2);
    assert_eq!(pairs[0], (s("alice"), s("hello")));
    assert_eq!(pairs[1], (s("bob"), s("hello")));
    let mut log: Vec<Notification> = Vec::new();
    send_notifications(&mut log, pairs);
    assert_eq!(log.len(), 2);
    assert_eq!(log[0].user_id, "alice");
    assert_eq!(log[0].message, "hello");
    assert_eq!(log[1].user_id, "bob");
    assert_eq!(log[1].message, "hello");
}

#[test]
fn posting_with_an_equal_timestamp_replaces_the_ride() {
    let mut m = Marketplace::new();
    m.post_ride(s("alice"), s("A"), s("B"), 2, false, 42);
    let id = m.post_ride(s("bob"), s("C"), s("D"), 3, false, 42);
    assert_eq!(id, "ride-42");
    let rides = m.get_all_rides();
    assert_eq!(rides.len(), 1);
    assert_eq!(rides[0].owner, "bob");
    assert_eq!(rides[0].origin, "C");
}

#[test]
fn ride_id_renders_the_full_timestamp() {
    let mut m = Marketplace::new();
    let id = m.post_ride(s("alice"), s("A"), s("B"), 2, false, u64::MAX);
    assert_eq!(id, "ride-18446744073709551615");
    let id = m.post_ride(s("alice"), s("A"), s("B"), 2, false, 0);
    assert_eq!(id, "ride-0");
}
