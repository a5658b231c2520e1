//! The ride marketplace state machine: the ride map, rider/driver membership
//! transitions, and the append-only notification log that every accepted
//! transition writes to.

use vstd::prelude::*;
use vstd::string::StringExecFns;

use crate::text::{dec_str, u64_to_dec};

verus! {

#[derive(Clone, Copy, PartialEq, Eq, Structural, Debug)]
pub enum RideStatus {
    Open,
    InProgress,
    Completed,
    Cancelled,
}

/// One message queued for one user; never mutated or deleted.
pub struct Notification {
    pub user_id: String,
    pub message: String,
}

/// A shareable trip record with an owner, a capacity, an optional driver and
/// a membership set.
pub struct Ride {
    pub ride_id: String,
    pub riders: Vec<String>,
    pub origin: String,
    pub destination: String,
    pub owner: String,
    pub is_driver: bool,
    pub driver_id: Option<String>,
    pub status: RideStatus,
    pub max_riders: usize,
    pub created_at: u64,
}

/// Whether `u` labels one of the ride's riders.
pub open spec fn has_rider(r: Ride, u: Seq<char>) -> bool {
    exists|i: int| 0 <= i < r.riders@.len() && r.riders@[i]@ == u
}

/// No rider label occurs twice.
pub open spec fn riders_unique(r: Ride) -> bool {
    forall|i: int, j: int| 0 <= i < j < r.riders@.len() ==> r.riders@[i]@ != r.riders@[j]@
}

/// The per-ride invariant: distinct riders, the owner among them, and the
/// membership within a capacity of at least one.
pub open spec fn ride_wf(r: Ride) -> bool {
    &&& riders_unique(r)
    &&& has_rider(r, r.owner@)
    &&& 1 <= r.max_riders
    &&& r.riders@.len() <= r.max_riders
}

/// `b` carries exactly the same ride data as `a` (a faithful copy).
pub open spec fn ride_like(a: Ride, b: Ride) -> bool {
    &&& a.ride_id == b.ride_id
    &&& a.riders@ == b.riders@
    &&& a.origin == b.origin
    &&& a.destination == b.destination
    &&& a.owner == b.owner
    &&& a.is_driver == b.is_driver
    &&& a.driver_id == b.driver_id
    &&& a.status == b.status
    &&& a.max_riders == b.max_riders
    &&& a.created_at == b.created_at
}

/// `b` is `a` with the label `u` appended to its riders, all else unchanged.
pub open spec fn ride_with_added_rider(a: Ride, b: Ride, u: Seq<char>) -> bool {
    &&& b.riders@.len() == a.riders@.len() + 1
    &&& forall|i: int| 0 <= i < a.riders@.len() ==> b.riders@[i] == a.riders@[i]
    &&& b.riders@.last()@ == u
    &&& b.ride_id == a.ride_id
    &&& b.origin == a.origin
    &&& b.destination == a.destination
    &&& b.owner == a.owner
    &&& b.is_driver == a.is_driver
    &&& b.driver_id == a.driver_id
    &&& b.status == a.status
    &&& b.max_riders == a.max_riders
    &&& b.created_at == a.created_at
}

/// `b` is `a` with the driver `d` assigned, all else unchanged.
pub open spec fn ride_with_driver(a: Ride, b: Ride, d: Seq<char>) -> bool {
    &&& b.driver_id is Some && b.driver_id->0@ == d
    &&& b.is_driver == true
    &&& b.ride_id == a.ride_id
    &&& b.riders@ == a.riders@
    &&& b.origin == a.origin
    &&& b.destination == a.destination
    &&& b.owner == a.owner
    &&& b.status == a.status
    &&& b.max_riders == a.max_riders
    &&& b.created_at == a.created_at
}

/// The notification `n` is addressed to `user` and carries `msg`.
pub open spec fn note_is(n: Notification, user: Seq<char>, msg: Seq<char>) -> bool {
    n.user_id@ == user && n.message@ == msg
}

/// No two rides share an identifier.
pub open spec fn ride_ids_unique(rides: Seq<Ride>) -> bool {
    forall|i: int, j: int| 0 <= i < j < rides.len() ==> rides[i].ride_id@ != rides[j].ride_id@
}

/// The ride identifier generated from the timestamp `now`.
pub open spec fn spec_ride_id(now: u64) -> Seq<char> {
    "ride-"@ + dec_str(now as nat)
}

/// The notification text sent to a ride owner when `q` asks to join.
pub open spec fn msg_join_request(q: Seq<char>) -> Seq<char> {
    "User "@ + q + " requested to join your ride."@
}

/// The notification text sent to a ride owner when the driver `d` joins.
pub open spec fn msg_driver_joined(d: Seq<char>) -> Seq<char> {
    "Driver "@ + d + " has joined your ride."@
}

/// What `str::to_lowercase` turns a text into; the result depends on the
/// characters alone.
pub uninterp spec fn lower_of(s: Seq<char>) -> Seq<char>;

/// Relies on `str::to_lowercase`: the lowercase equivalent of the text,
/// a function of its characters alone.
#[verifier::external_body]
fn lowercase(s: &String) -> (r: String)
    ensures
        r@ == lower_of(s@),
{
    s.as_str().to_lowercase()
}

/// Whether `needle` occurs in `hay` as a contiguous run of characters.
pub open spec fn spec_contains(hay: Seq<char>, needle: Seq<char>) -> bool {
    exists|i: int|
        0 <= i && i + needle.len() <= hay.len() && #[trigger] hay.subrange(i, i + needle.len())
            == needle
}

/// Relies on `str::contains` with a string pattern: true exactly when the
/// pattern matches a sub-slice of the text.
#[verifier::external_body]
fn str_contains(hay: &String, needle: &String) -> (r: bool)
    ensures
        r == spec_contains(hay@, needle@),
{
    hay.as_str().contains(needle.as_str())
}

/// The search predicate: case-insensitive substring match on origin and
/// destination when given, exact status match when given.
pub open spec fn ride_matches(
    r: Ride,
    oq: Option<Seq<char>>,
    dq: Option<Seq<char>>,
    sq: Option<RideStatus>,
) -> bool {
    &&& match oq {
        Some(o) => spec_contains(lower_of(r.origin@), lower_of(o)),
        None => true,
    }
    &&& match dq {
        Some(d) => spec_contains(lower_of(r.destination@), lower_of(d)),
        None => true,
    }
    &&& match sq {
        Some(s) => r.status == s,
        None => true,
    }
}

/// The view of an optional search string.
pub open spec fn opt_label(o: Option<String>) -> Option<Seq<char>> {
    match o {
        Some(s) => Some(s@),
        None => None,
    }
}

/// The subsequence of `rides` that satisfies the search predicate, in order.
pub open spec fn matching_rides(
    rides: Seq<Ride>,
    oq: Option<Seq<char>>,
    dq: Option<Seq<char>>,
    sq: Option<RideStatus>,
) -> Seq<Ride>
    decreases rides.len(),
{
    if rides.len() == 0 {
        Seq::empty()
    } else {
        matching_rides(rides.drop_last(), oq, dq, sq) + if ride_matches(rides.last(), oq, dq, sq) {
            seq![rides.last()]
        } else {
            Seq::empty()
        }
    }
}

/// The labels in `riders` other than `owner`, in rider order.
pub open spec fn non_owner_riders(riders: Seq<String>, owner: Seq<char>) -> Seq<String>
    decreases riders.len(),
{
    if riders.len() == 0 {
        Seq::empty()
    } else {
        non_owner_riders(riders.drop_last(), owner) + if riders.last()@ != owner {
            seq![riders.last()]
        } else {
            Seq::empty()
        }
    }
}

/// The messages queued for `u`, in insertion order.
pub open spec fn msgs_for(notes: Seq<Notification>, u: Seq<char>) -> Seq<Seq<char>>
    decreases notes.len(),
{
    if notes.len() == 0 {
        Seq::empty()
    } else {
        msgs_for(notes.drop_last(), u) + if notes.last().user_id@ == u {
            seq![notes.last().message@]
        } else {
            Seq::empty()
        }
    }
}

/// The lowercased form of an optional search string, when present.
pub open spec fn lowered_matches(q: Option<String>, ql: Option<String>) -> bool {
    match (q, ql) {
        (Some(o), Some(ol)) => ol@ == lower_of(o@),
        (None, None) => true,
        _ => false,
    }
}

/// The marketplace state: the ride map and the append-only notification log.
pub struct Marketplace {
    pub rides: Vec<Ride>,
    pub notifications: Vec<Notification>,
}

fn find_ride(rides: &Vec<Ride>, ride_id: &String) -> (r: Option<usize>)
    ensures
        match r {
            Some(i) => i < rides@.len() && rides@[i as int].ride_id@ == ride_id@,
            None => forall|j: int| 0 <= j < rides@.len() ==> rides@[j].ride_id@ != ride_id@,
        },
{
    let mut i: usize = 0;
    while i < rides.len()
        invariant
            i <= rides@.len(),
            forall|j: int| 0 <= j < i ==> rides@[j].ride_id@ != ride_id@,
        decreases rides@.len() - i,
    {
        if rides[i].ride_id == *ride_id {
            return Some(i);
        }
        i = i + 1;
    }
    None
}

fn contains_rider(r: &Ride, user: &String) -> (b: bool)
    ensures
        b == has_rider(*r, user@),
{
    let mut i: usize = 0;
    while i < r.riders.len()
        invariant
            i <= r.riders@.len(),
            forall|j: int| 0 <= j < i ==> r.riders@[j]@ != user@,
        decreases r.riders@.len() - i,
    {
        if r.riders[i] == *user {
            return true;
        }
        i = i + 1;
    }
    false
}

/// A faithful copy of a ride.
fn clone_ride(r: &Ride) -> (c: Ride)
    ensures
        ride_like(*r, c),
{
    let mut riders: Vec<String> = Vec::new();
    let mut i: usize = 0;
    while i < r.riders.len()
        invariant
            i <= r.riders@.len(),
            riders@.len() == i,
            forall|j: int| 0 <= j < i ==> riders@[j] == r.riders@[j],
        decreases r.riders@.len() - i,
    {
        riders.push(r.riders[i].clone());
        i = i + 1;
    }
    proof {
        assert(riders@ =~= r.riders@);
    }
    let driver_id = match &r.driver_id {
        Some(d) => Some(d.clone()),
        None => None,
    };
    Ride {
        ride_id: r.ride_id.clone(),
        riders,
        origin: r.origin.clone(),
        destination: r.destination.clone(),
        owner: r.owner.clone(),
        is_driver: r.is_driver,
        driver_id,
        status: r.status,
        max_riders: r.max_riders,
        created_at: r.created_at,
    }
}

/// One (recipient, message) pair per current rider of the ride, in rider
/// order, all carrying the same message.
pub fn collect_notifications(ride: &Ride, message: &str) -> (r: Vec<(String, String)>)
    ensures
        r@.len() == ride.riders@.len(),
        forall|i: int|
            0 <= i < r@.len() ==> (#[trigger] r@[i]).0 == ride.riders@[i] && r@[i].1@ == message@,
{
    let mut r: Vec<(String, String)> = Vec::new();
    let mut i: usize = 0;
    while i < ride.riders.len()
        invariant
            i <= ride.riders@.len(),
            r@.len() == i,
            forall|j: int|
                0 <= j < i ==> (#[trigger] r@[j]).0 == ride.riders@[j] && r@[j].1@ == message@,
        decreases ride.riders@.len() - i,
    {
        r.push((ride.riders[i].clone(), message.to_owned()));
        i = i + 1;
    }
    r
}

/// Append one notification per (recipient, message) pair to the log, in
/// order, leaving everything already logged in place.
pub fn send_notifications(log: &mut Vec<Notification>, notifications: Vec<(String, String)>)
    ensures
        final(log)@.len() == old(log)@.len() + notifications@.len(),
        forall|i: int| 0 <= i < old(log)@.len() ==> final(log)@[i] == old(log)@[i],
        forall|i: int|
            0 <= i < notifications@.len() ==> (#[trigger] final(log)@[old(log)@.len() + i]).user_id
                == notifications@[i].0 && final(log)@[old(log)@.len() + i].message
                == notifications@[i].1,
{
    let mut i: usize = 0;
    while i < notifications.len()
        invariant
            i <= notifications@.len(),
            log@.len() == old(log)@.len() + i,
            forall|j: int| 0 <= j < old(log)@.len() ==> log@[j] == old(log)@[j],
            forall|j: int|
                0 <= j < i ==> (#[trigger] log@[old(log)@.len() + j]).user_id
                    == notifications@[j].0 && log@[old(log)@.len() + j].message
                    == notifications@[j].1,
        decreases notifications@.len() - i,
    {
        log.push(
            Notification {
                user_id: notifications[i].0.clone(),
                message: notifications[i].1.clone(),
            },
        );
        i = i + 1;
    }
}

impl Marketplace {
    /// The marketplace invariant: unique ride identifiers, every ride
    /// well-formed (in particular, no ride's membership above its capacity).
    pub open spec fn wf(self) -> bool {
        &&& ride_ids_unique(self.rides@)
        &&& forall|i: int| 0 <= i < self.rides@.len() ==> ride_wf(#[trigger] self.rides@[i])
    }

    /// Whether some ride carries the identifier `id`.
    pub open spec fn has_ride(self, id: Seq<char>) -> bool {
        exists|i: int| 0 <= i < self.rides@.len() && self.rides@[i].ride_id@ == id
    }

    /// The position of the ride carrying `id` (meaningful when `has_ride`).
    pub open spec fn ride_at(self, id: Seq<char>) -> int {
        choose|i: int| 0 <= i < self.rides@.len() && self.rides@[i].ride_id@ == id
    }

    /// An empty marketplace: no rides, no notifications.
    pub fn new() -> (r: Marketplace)
        ensures
            r.wf(),
            r.rides@.len() == 0,
            r.notifications@.len() == 0,
    {
        Marketplace { rides: Vec::new(), notifications: Vec::new() }
    }
}

proof fn lemma_ride_at(m: Marketplace, id: Seq<char>, i: int)
    requires
        m.wf(),
        0 <= i < m.rides@.len(),
        m.rides@[i].ride_id@ == id,
    ensures
        m.has_ride(id),
        m.ride_at(id) == i,
{
    assert(m.has_ride(id));
    let j = m.ride_at(id);
    if j != i {
        if i < j {
            assert(m.rides@[i].ride_id@ != m.rides@[j].ride_id@);
        } else {
            assert(m.rides@[j].ride_id@ != m.rides@[i].ride_id@);
        }
    }
}

proof fn lemma_update_ride_wf(m0: Seq<Ride>, m1: Seq<Ride>, j: int)
    requires
        ride_ids_unique(m0),
        forall|i: int| 0 <= i < m0.len() ==> ride_wf(#[trigger] m0[i]),
        0 <= j < m0.len(),
        m1.len() == m0.len(),
        forall|i: int| 0 <= i < m0.len() && i != j ==> m1[i] == m0[i],
        m1[j].ride_id@ == m0[j].ride_id@,
        ride_wf(m1[j]),
    ensures
        ride_ids_unique(m1),
        forall|i: int| 0 <= i < m1.len() ==> ride_wf(#[trigger] m1[i]),
{
    assert forall|a: int, b: int| 0 <= a < b < m1.len() implies m1[a].ride_id@ != m1[b].ride_id@ by {
        assert(m0[a].ride_id@ != m0[b].ride_id@);
        assert(m1[a].ride_id@ == m0[a].ride_id@);
        assert(m1[b].ride_id@ == m0[b].ride_id@);
    }
    assert forall|i: int| 0 <= i < m1.len() implies ride_wf(#[trigger] m1[i]) by {
        if i != j {
            assert(m1[i] == m0[i]);
            assert(ride_wf(m0[i]));
        }
    }
}

proof fn lemma_push_ride_wf(m0: Seq<Ride>, r: Ride)
    requires
        ride_ids_unique(m0),
        forall|i: int| 0 <= i < m0.len() ==> ride_wf(#[trigger] m0[i]),
        ride_wf(r),
        forall|i: int| 0 <= i < m0.len() ==> (#[trigger] m0[i]).ride_id@ != r.ride_id@,
    ensures
        ride_ids_unique(m0.push(r)),
        forall|i: int| 0 <= i < m0.push(r).len() ==> ride_wf(#[trigger] m0.push(r)[i]),
{
    let m1 = m0.push(r);
    assert forall|a: int, b: int| 0 <= a < b < m1.len() implies m1[a].ride_id@ != m1[b].ride_id@ by {
        if b < m0.len() {
            assert(m0[a].ride_id@ != m0[b].ride_id@);
        } else {
            assert(m0[a].ride_id@ != r.ride_id@);
        }
    }
    assert forall|i: int| 0 <= i < m1.len() implies ride_wf(#[trigger] m1[i]) by {
        if i < m0.len() {
            assert(ride_wf(m0[i]));
        }
    }
}

proof fn lemma_added_rider_wf(a: Ride, b: Ride, u: Seq<char>)
    requires
        ride_wf(a),
        !has_rider(a, u),
        a.riders@.len() < a.max_riders,
        ride_with_added_rider(a, b, u),
    ensures
        ride_wf(b),
{
    assert forall|i: int, j: int|
        0 <= i < j < b.riders@.len() implies b.riders@[i]@ != b.riders@[j]@ by {
        if j < a.riders@.len() {
            assert(b.riders@[i] == a.riders@[i]);
            assert(b.riders@[j] == a.riders@[j]);
            assert(a.riders@[i]@ != a.riders@[j]@);
        } else {
            assert(b.riders@[j]@ == u);
            assert(b.riders@[i] == a.riders@[i]);
            if a.riders@[i]@ == u {
                assert(has_rider(a, u));
            }
        }
    }
    let w = choose|i: int| 0 <= i < a.riders@.len() && a.riders@[i]@ == a.owner@;
    assert(b.riders@[w] == a.riders@[w]);
    assert(has_rider(b, b.owner@));
}

impl Marketplace {
    /// Create a ride: a fresh identifier derived from `now`, the owner as the
    /// only rider, status `Open`, and the owner as driver exactly when
    /// `is_driver_created`. A ride already carrying the generated identifier
    /// is replaced; any other ride is untouched, and no notification is sent.
    pub fn post_ride(
        &mut self,
        user_id: String,
        origin: String,
        destination: String,
        max_riders: u64,
        is_driver_created: bool,
        now: u64,
    ) -> (r: String)
        requires
            old(self).wf(),
            1 <= max_riders <= usize::MAX as u64,
        ensures
            final(self).wf(),
            r@ == spec_ride_id(now),
            final(self).notifications == old(self).notifications,
            final(self).has_ride(spec_ride_id(now)),
            ({
                let nr = final(self).rides@[final(self).ride_at(spec_ride_id(now))];
                &&& nr.ride_id@ == spec_ride_id(now)
                &&& nr.riders@.len() == 1 && nr.riders@[0]@ == user_id@
                &&& nr.origin == origin
                &&& nr.destination == destination
                &&& nr.owner == user_id
                &&& nr.is_driver == is_driver_created
                &&& if is_driver_created {
                    nr.driver_id is Some && nr.driver_id->0@ == user_id@
                } else {
                    nr.driver_id is None
                }
                &&& nr.status == RideStatus::Open
                &&& nr.max_riders == max_riders as usize
                &&& nr.created_at == now
            }),
            !old(self).has_ride(spec_ride_id(now)) ==> final(self).rides@.len() == old(
                self,
            ).rides@.len() + 1 && (forall|i: int|
                0 <= i < old(self).rides@.len() ==> final(self).rides@[i] == old(self).rides@[i]),
            old(self).has_ride(spec_ride_id(now)) ==> final(self).rides@.len() == old(
                self,
            ).rides@.len() && (forall|i: int|
                0 <= i < old(self).rides@.len() && i != old(self).ride_at(spec_ride_id(now))
                    ==> final(self).rides@[i] == old(self).rides@[i]),
    {
        let mut rid = "ride-".to_owned();
        let d = u64_to_dec(now);
        rid.append(d.as_str());
        proof {
            assert(rid@ =~= spec_ride_id(now));
        }
        let mut riders: Vec<String> = Vec::new();
        riders.push(user_id.clone());
        let driver_id = if is_driver_created {
            Some(user_id.clone())
        } else {
            None
        };
        let ride = Ride {
            ride_id: rid.clone(),
            riders,
            origin,
            destination,
            owner: user_id,
            is_driver: is_driver_created,
            driver_id,
            status: RideStatus::Open,
            max_riders: max_riders as usize,
            created_at: now,
        };
        proof {
            assert(ride.riders@[0]@ == ride.owner@);
            assert(has_rider(ride, ride.owner@));
            assert(ride_wf(ride));
        }
        match find_ride(&self.rides, &rid) {
            Some(j) => {
                proof {
                    lemma_ride_at(*self, rid@, j as int);
                }
                let ghost rides0 = self.rides@;
                let _ = self.rides.remove(j);
                self.rides.insert(j, ride);
                proof {
                    assert(self.rides@ =~= rides0.update(j as int, self.rides@[j as int]));
                    lemma_update_ride_wf(rides0, self.rides@, j as int);
                    lemma_ride_at(*self, rid@, j as int);
                }
            },
            None => {
                let ghost rides0 = self.rides@;
                self.rides.push(ride);
                proof {
                    lemma_push_ride_wf(rides0, self.rides@.last());
                    lemma_ride_at(*self, rid@, self.rides@.len() - 1);
                }
            },
        }
        rid
    }

    /// Ask to join a ride: fails, with a descriptive message and no state
    /// change, when the ride is unknown, not open, already joined by the
    /// requester, or full; otherwise adds the requester and queues one
    /// notification to the ride owner.
    pub fn request_to_join(&mut self, ride_id: String, requester_id: String) -> (r: String)
        requires
            old(self).wf(),
        ensures
            final(self).wf(),
            !old(self).has_ride(ride_id@) ==> *final(self) == *old(self) && r@
                == "Ride not found."@,
            old(self).has_ride(ride_id@) ==> ({
                let j = old(self).ride_at(ride_id@);
                let rd = old(self).rides@[j];
                if rd.status != RideStatus::Open {
                    *final(self) == *old(self) && r@ == "Ride is not open for new riders."@
                } else if has_rider(rd, requester_id@) {
                    *final(self) == *old(self) && r@ == "You are already part of this ride."@
                } else if rd.riders@.len() >= rd.max_riders {
                    *final(self) == *old(self) && r@ == "Ride is full."@
                } else {
                    &&& final(self).rides@.len() == old(self).rides@.len()
                    &&& forall|i: int|
                        0 <= i < old(self).rides@.len() && i != j ==> final(self).rides@[i] == old(
                            self,
                        ).rides@[i]
                    &&& ride_with_added_rider(rd, final(self).rides@[j], requester_id@)
                    &&& final(self).notifications@.len() == old(self).notifications@.len() + 1
                    &&& forall|i: int|
                        0 <= i < old(self).notifications@.len() ==> final(self).notifications@[i]
                            == old(self).notifications@[i]
                    &&& note_is(
                        final(self).notifications@.last(),
                        rd.owner@,
                        msg_join_request(requester_id@),
                    )
                    &&& r@ == "Request sent to ride owner."@
                }
            }),
    {
        match find_ride(&self.rides, &ride_id) {
            None => "Ride not found.".to_owned(),
            Some(j) => {
                proof {
                    lemma_ride_at(*self, ride_id@, j as int);
                }
                if self.rides[j].status != RideStatus::Open {
                    return "Ride is not open for new riders.".to_owned();
                }
                if contains_rider(&self.rides[j], &requester_id) {
                    return "You are already part of this ride.".to_owned();
                }
                if self.rides[j].riders.len() >= self.rides[j].max_riders {
                    return "Ride is full.".to_owned();
                }
                let ghost rides0 = self.rides@;
                let mut rd = self.rides.remove(j);
                let owner_copy = rd.owner.clone();
                rd.riders.push(requester_id.clone());
                self.rides.insert(j, rd);
                proof {
                    assert(self.rides@ =~= rides0.update(j as int, self.rides@[j as int]));
                    assert(ride_with_added_rider(
                        rides0[j as int],
                        self.rides@[j as int],
                        requester_id@,
                    ));
                    lemma_added_rider_wf(rides0[j as int], self.rides@[j as int], requester_id@);
                    lemma_update_ride_wf(rides0, self.rides@, j as int);
                }
                let mut msg = "User ".to_owned();
                msg.append(requester_id.as_str());
                msg.append(" requested to join your ride.");
                proof {
                    assert(msg@ =~= msg_join_request(requester_id@));
                }
                self.notifications.push(Notification { user_id: owner_copy, message: msg });
                "Request sent to ride owner.".to_owned()
            },
        }
    }

    /// Owner-asserted admission: fails, with a descriptive message and no
    /// state change, when the ride is unknown, the claimant is not the owner,
    /// or the ride is full; otherwise admits `user_id` (a no-op on the
    /// membership when already a rider) and notifies `user_id`.
    pub fn accept_rider(&mut self, ride_id: String, owner_id: String, user_id: String) -> (r:
        String)
        requires
            old(self).wf(),
        ensures
            final(self).wf(),
            !old(self).has_ride(ride_id@) ==> *final(self) == *old(self) && r@
                == "Ride not found."@,
            old(self).has_ride(ride_id@) ==> ({
                let j = old(self).ride_at(ride_id@);
                let rd = old(self).rides@[j];
                if rd.owner@ != owner_id@ {
                    *final(self) == *old(self) && r@
                        == "Only the ride owner can accept requests."@
                } else if rd.riders@.len() < rd.max_riders {
                    &&& final(self).rides@.len() == old(self).rides@.len()
                    &&& forall|i: int|
                        0 <= i < old(self).rides@.len() && i != j ==> final(self).rides@[i] == old(
                            self,
                        ).rides@[i]
                    &&& if has_rider(rd, user_id@) {
                        final(self).rides == old(self).rides
                    } else {
                        ride_with_added_rider(rd, final(self).rides@[j], user_id@)
                    }
                    &&& final(self).notifications@.len() == old(self).notifications@.len() + 1
                    &&& forall|i: int|
                        0 <= i < old(self).notifications@.len() ==> final(self).notifications@[i]
                            == old(self).notifications@[i]
                    &&& note_is(
                        final(self).notifications@.last(),
                        user_id@,
                        "Your request to join the ride has been accepted."@,
                    )
                    &&& r@ == "User added to the ride."@
                } else {
                    *final(self) == *old(self) && r@ == "Ride is already full."@
                }
            }),
    {
        match find_ride(&self.rides, &ride_id) {
            None => "Ride not found.".to_owned(),
            Some(j) => {
                proof {
                    lemma_ride_at(*self, ride_id@, j as int);
                }
                if !(self.rides[j].owner == owner_id) {
                    return "Only the ride owner can accept requests.".to_owned();
                }
                if self.rides[j].riders.len() < self.rides[j].max_riders {
                    if !contains_rider(&self.rides[j], &user_id) {
                        let ghost rides0 = self.rides@;
                        let mut rd = self.rides.remove(j);
                        rd.riders.push(user_id.clone());
                        self.rides.insert(j, rd);
                        proof {
                            assert(self.rides@ =~= rides0.update(j as int, self.rides@[j as int]));
                            assert(ride_with_added_rider(
                                rides0[j as int],
                                self.rides@[j as int],
                                user_id@,
                            ));
                            lemma_added_rider_wf(
                                rides0[j as int],
                                self.rides@[j as int],
                                user_id@,
                            );
                            lemma_update_ride_wf(rides0, self.rides@, j as int);
                        }
                    }
                    self.notifications.push(
                        Notification {
                            user_id,
                            message: "Your request to join the ride has been accepted.".to_owned(),
                        },
                    );
                    "User added to the ride.".to_owned()
                } else {
                    "Ride is already full.".to_owned()
                }
            },
        }
    }
}

/// Capacity law: in a well-formed marketplace — the state every operation
/// requires and re-establishes — no ride's membership exceeds its capacity.
pub proof fn lemma_capacity(m: Marketplace, i: int)
    requires
        m.wf(),
        0 <= i < m.rides@.len(),
    ensures
        m.rides@[i].riders@.len() <= m.rides@[i].max_riders,
{
}

/// Idempotent membership: a successful join (the success case of
/// `request_to_join`'s contract, `ride_with_added_rider`) leaves the
/// requester a member, so by that same contract an identical second request
/// takes the already-member branch: it changes nothing and reports
/// "You are already part of this ride.".
pub proof fn lemma_join_idempotent(a: Ride, b: Ride, u: Seq<char>)
    requires
        ride_with_added_rider(a, b, u),
    ensures
        has_rider(b, u),
{
    assert(b.riders@[b.riders@.len() - 1]@ == u);
}

proof fn lemma_remove_ride_wf(m0: Seq<Ride>, j: int)
    requires
        ride_ids_unique(m0),
        forall|i: int| 0 <= i < m0.len() ==> ride_wf(#[trigger] m0[i]),
        0 <= j < m0.len(),
    ensures
        ride_ids_unique(m0.remove(j)),
        forall|i: int| 0 <= i < m0.remove(j).len() ==> ride_wf(#[trigger] m0.remove(j)[i]),
{
    let m1 = m0.remove(j);
    assert forall|a: int, b: int| 0 <= a < b < m1.len() implies m1[a].ride_id@ != m1[b].ride_id@ by {
        let a0: int = if a < j {
            a
        } else {
            a + 1
        };
        let b0: int = if b < j {
            b
        } else {
            b + 1
        };
        assert(m1[a] == m0[a0]);
        assert(m1[b] == m0[b0]);
        assert(m0[a0].ride_id@ != m0[b0].ride_id@);
    }
    assert forall|i: int| 0 <= i < m1.len() implies ride_wf(#[trigger] m1[i]) by {
        let i0: int = if i < j {
            i
        } else {
            i + 1
        };
        assert(m1[i] == m0[i0]);
        assert(ride_wf(m0[i0]));
    }
}

impl Marketplace {
    /// Let a driver take the ride: fails, with a descriptive message and no
    /// state change, when the ride is unknown, not open, or already driven;
    /// otherwise records the driver and notifies the owner and then every
    /// non-owner rider.
    pub fn driver_join(&mut self, ride_id: String, driver_id: String) -> (r: String)
        requires
            old(self).wf(),
        ensures
            final(self).wf(),
            !old(self).has_ride(ride_id@) ==> *final(self) == *old(self) && r@
                == "Ride not found."@,
            old(self).has_ride(ride_id@) ==> ({
                let j = old(self).ride_at(ride_id@);
                let rd = old(self).rides@[j];
                if rd.status != RideStatus::Open {
                    *final(self) == *old(self) && r@ == "Ride is not open for drivers."@
                } else if rd.driver_id is Some {
                    *final(self) == *old(self) && r@ == "Ride already has a driver."@
                } else {
                    let extra = non_owner_riders(rd.riders@, rd.owner@);
                    &&& final(self).rides@.len() == old(self).rides@.len()
                    &&& forall|i: int|
                        0 <= i < old(self).rides@.len() && i != j ==> final(self).rides@[i] == old(
                            self,
                        ).rides@[i]
                    &&& ride_with_driver(rd, final(self).rides@[j], driver_id@)
                    &&& final(self).notifications@.len() == old(self).notifications@.len() + 1
                        + extra.len()
                    &&& forall|i: int|
                        0 <= i < old(self).notifications@.len() ==> final(self).notifications@[i]
                            == old(self).notifications@[i]
                    &&& note_is(
                        final(self).notifications@[old(self).notifications@.len() as int],
                        rd.owner@,
                        msg_driver_joined(driver_id@),
                    )
                    &&& forall|i: int|
                        0 <= i < extra.len() ==> note_is(
                            #[trigger] final(self).notifications@[old(
                                self,
                            ).notifications@.len() + 1 + i],
                            extra[i]@,
                            "A driver has joined your ride."@,
                        )
                    &&& r@ == "Successfully joined as driver."@
                }
            }),
    {
        match find_ride(&self.rides, &ride_id) {
            None => "Ride not found.".to_owned(),
            Some(j) => {
                proof {
                    lemma_ride_at(*self, ride_id@, j as int);
                }
                if self.rides[j].status != RideStatus::Open {
                    return "Ride is not open for drivers.".to_owned();
                }
                if self.rides[j].driver_id.is_some() {
                    return "Ride already has a driver.".to_owned();
                }
                let ghost rides0 = self.rides@;
                let mut rd = self.rides.remove(j);
                rd.driver_id = Some(driver_id.clone());
                rd.is_driver = true;
                let mut msg = "Driver ".to_owned();
                msg.append(driver_id.as_str());
                msg.append(" has joined your ride.");
                proof {
                    assert(msg@ =~= msg_driver_joined(driver_id@));
                }
                self.notifications.push(Notification { user_id: rd.owner.clone(), message: msg });
                let ghost base = self.notifications@;
                let mut i: usize = 0;
                while i < rd.riders.len()
                    invariant
                        i <= rd.riders@.len(),
                        old(self).wf(),
                        rides0 == old(self).rides@,
                        j < rides0.len(),
                        rides0[j as int].ride_id@ == ride_id@,
                        old(self).has_ride(ride_id@),
                        old(self).ride_at(ride_id@) == j as int,
                        rides0[j as int].status == RideStatus::Open,
                        rides0[j as int].driver_id is None,
                        ride_with_driver(rides0[j as int], rd, driver_id@),
                        self.rides@ == rides0.remove(j as int),
                        j <= self.rides@.len(),
                        base.len() == old(self).notifications@.len() + 1,
                        forall|t: int|
                            0 <= t < old(self).notifications@.len() ==> base[t] == old(
                                self,
                            ).notifications@[t],
                        note_is(base.last(), rides0[j as int].owner@, msg_driver_joined(driver_id@)),
                        self.notifications@.len() == base.len() + non_owner_riders(
                            rd.riders@.take(i as int),
                            rd.owner@,
                        ).len(),
                        forall|t: int| 0 <= t < base.len() ==> self.notifications@[t] == base[t],
                        forall|t: int|
                            0 <= t < non_owner_riders(rd.riders@.take(i as int), rd.owner@).len()
                                ==> note_is(
                                #[trigger] self.notifications@[base.len() + t],
                                non_owner_riders(rd.riders@.take(i as int), rd.owner@)[t]@,
                                "A driver has joined your ride."@,
                            ),
                    decreases rd.riders@.len() - i,
                {
                    proof {
                        assert(rd.riders@.take((i + 1) as int).drop_last() =~= rd.riders@.take(
                            i as int,
                        ));
                    }
                    if !(rd.riders[i] == rd.owner) {
                        self.notifications.push(
                            Notification {
                                user_id: rd.riders[i].clone(),
                                message: "A driver has joined your ride.".to_owned(),
                            },
                        );
                    }
                    i = i + 1;
                }
                proof {
                    assert(rd.riders@.take(rd.riders@.len() as int) =~= rd.riders@);
                    assert forall|t: int|
                        0 <= t < old(self).notifications@.len() implies self.notifications@[t]
                        == old(self).notifications@[t] by {
                        assert(self.notifications@[t] == base[t]);
                        assert(base[t] == old(self).notifications@[t]);
                    }
                }
                self.rides.insert(j, rd);
                proof {
                    assert(self.rides@ =~= rides0.update(j as int, self.rides@[j as int]));
                    lemma_update_ride_wf(rides0, self.rides@, j as int);
                }
                "Successfully joined as driver.".to_owned()
            },
        }
    }

    /// Remove a ride entirely: fails, with a descriptive message and no
    /// state change, when the ride is unknown or the claimant is not the
    /// owner; otherwise deletes the record and notifies every rider.
    pub fn delete_ride(&mut self, ride_id: String, owner_id: String) -> (r: String)
        requires
            old(self).wf(),
        ensures
            final(self).wf(),
            !old(self).has_ride(ride_id@) ==> *final(self) == *old(self) && r@
                == "Ride not found."@,
            old(self).has_ride(ride_id@) ==> ({
                let j = old(self).ride_at(ride_id@);
                let rd = old(self).rides@[j];
                if rd.owner@ != owner_id@ {
                    *final(self) == *old(self) && r@
                        == "Only the ride owner can delete the ride."@
                } else {
                    &&& final(self).rides@ == old(self).rides@.remove(j)
                    &&& final(self).notifications@.len() == old(self).notifications@.len()
                        + rd.riders@.len()
                    &&& forall|i: int|
                        0 <= i < old(self).notifications@.len() ==> final(self).notifications@[i]
                            == old(self).notifications@[i]
                    &&& forall|i: int|
                        0 <= i < rd.riders@.len() ==> note_is(
                            #[trigger] final(self).notifications@[old(
                                self,
                            ).notifications@.len() + i],
                            rd.riders@[i]@,
                            "A ride you joined has been deleted."@,
                        )
                    &&& r@ == "Ride deleted successfully."@
                }
            }),
    {
        match find_ride(&self.rides, &ride_id) {
            None => "Ride not found.".to_owned(),
            Some(j) => {
                proof {
                    lemma_ride_at(*self, ride_id@, j as int);
                }
                if !(self.rides[j].owner == owner_id) {
                    return "Only the ride owner can delete the ride.".to_owned();
                }
                let ghost rides0 = self.rides@;
                let ride = self.rides.remove(j);
                proof {
                    lemma_remove_ride_wf(rides0, j as int);
                }
                let notes = collect_notifications(&ride, "A ride you joined has been deleted.");
                send_notifications(&mut self.notifications, notes);
                "Ride deleted successfully.".to_owned()
            },
        }
    }

    /// Cancelling a ride removes it outright, exactly as `delete_ride` does;
    /// no cancelled record is retained.
    pub fn cancel_ride(&mut self, ride_id: String, owner_id: String) -> (r: String)
        requires
            old(self).wf(),
        ensures
            final(self).wf(),
            !old(self).has_ride(ride_id@) ==> *final(self) == *old(self) && r@
                == "Ride not found."@,
            old(self).has_ride(ride_id@) ==> ({
                let j = old(self).ride_at(ride_id@);
                let rd = old(self).rides@[j];
                if rd.owner@ != owner_id@ {
                    *final(self) == *old(self) && r@
                        == "Only the ride owner can delete the ride."@
                } else {
                    &&& final(self).rides@ == old(self).rides@.remove(j)
                    &&& final(self).notifications@.len() == old(self).notifications@.len()
                        + rd.riders@.len()
                    &&& forall|i: int|
                        0 <= i < old(self).notifications@.len() ==> final(self).notifications@[i]
                            == old(self).notifications@[i]
                    &&& forall|i: int|
                        0 <= i < rd.riders@.len() ==> note_is(
                            #[trigger] final(self).notifications@[old(
                                self,
                            ).notifications@.len() + i],
                            rd.riders@[i]@,
                            "A ride you joined has been deleted."@,
                        )
                    &&& r@ == "Ride deleted successfully."@
                }
            }),
    {
        self.delete_ride(ride_id, owner_id)
    }

    /// All messages ever queued for `user_id`, in insertion order; the log
    /// itself is untouched.
    pub fn get_notifications(&self, user_id: String) -> (r: Vec<String>)
        ensures
            r@.len() == msgs_for(self.notifications@, user_id@).len(),
            forall|i: int|
                0 <= i < r@.len() ==> #[trigger] r@[i]@ == msgs_for(
                    self.notifications@,
                    user_id@,
                )[i],
    {
        let mut r: Vec<String> = Vec::new();
        let mut i: usize = 0;
        while i < self.notifications.len()
            invariant
                i <= self.notifications@.len(),
                r@.len() == msgs_for(self.notifications@.take(i as int), user_id@).len(),
                forall|t: int|
                    0 <= t < r@.len() ==> #[trigger] r@[t]@ == msgs_for(
                        self.notifications@.take(i as int),
                        user_id@,
                    )[t],
            decreases self.notifications@.len() - i,
        {
            proof {
                assert(self.notifications@.take((i + 1) as int).drop_last()
                    =~= self.notifications@.take(i as int));
            }
            if self.notifications[i].user_id == user_id {
                r.push(self.notifications[i].message.clone());
            }
            i = i + 1;
        }
        proof {
            assert(self.notifications@.take(self.notifications@.len() as int)
                =~= self.notifications@);
        }
        r
    }

    /// A full snapshot of the ride map: one faithful copy per ride.
    pub fn get_all_rides(&self) -> (r: Vec<Ride>)
        ensures
            r@.len() == self.rides@.len(),
            forall|i: int| 0 <= i < r@.len() ==> ride_like(self.rides@[i], #[trigger] r@[i]),
    {
        let mut r: Vec<Ride> = Vec::new();
        let mut i: usize = 0;
        while i < self.rides.len()
            invariant
                i <= self.rides@.len(),
                r@.len() == i,
                forall|t: int| 0 <= t < i ==> ride_like(self.rides@[t], #[trigger] r@[t]),
            decreases self.rides@.len() - i,
        {
            r.push(clone_ride(&self.rides[i]));
            i = i + 1;
        }
        r
    }

    /// The rides that satisfy the search filters, in ride-map order, as
    /// faithful copies; omitted filters match everything.
    pub fn search_rides(
        &self,
        origin: Option<String>,
        destination: Option<String>,
        status: Option<RideStatus>,
    ) -> (r: Vec<Ride>)
        ensures
            ({
                let ms = matching_rides(
                    self.rides@,
                    opt_label(origin),
                    opt_label(destination),
                    status,
                );
                r@.len() == ms.len() && forall|i: int|
                    0 <= i < r@.len() ==> ride_like(ms[i], #[trigger] r@[i])
            }),
    {
        let origin_low = match &origin {
            Some(o) => Some(lowercase(o)),
            None => None,
        };
        let dest_low = match &destination {
            Some(d) => Some(lowercase(d)),
            None => None,
        };
        let mut r: Vec<Ride> = Vec::new();
        let mut i: usize = 0;
        while i < self.rides.len()
            invariant
                i <= self.rides@.len(),
                lowered_matches(origin, origin_low),
                lowered_matches(destination, dest_low),
                r@.len() == matching_rides(
                    self.rides@.take(i as int),
                    opt_label(origin),
                    opt_label(destination),
                    status,
                ).len(),
                forall|t: int|
                    0 <= t < r@.len() ==> ride_like(
                        matching_rides(
                            self.rides@.take(i as int),
                            opt_label(origin),
                            opt_label(destination),
                            status,
                        )[t],
                        #[trigger] r@[t],
                    ),
            decreases self.rides@.len() - i,
        {
            proof {
                assert(self.rides@.take((i + 1) as int).drop_last() =~= self.rides@.take(i as int));
            }
            let om = match &origin_low {
                Some(ol) => str_contains(&lowercase(&self.rides[i].origin), ol),
                None => true,
            };
            let dm = match &dest_low {
                Some(dl) => str_contains(&lowercase(&self.rides[i].destination), dl),
                None => true,
            };
            let sm = match &status {
                Some(s) => self.rides[i].status == *s,
                None => true,
            };
            if om && dm && sm {
                r.push(clone_ride(&self.rides[i]));
            }
            i = i + 1;
        }
        proof {
            assert(self.rides@.take(self.rides@.len() as int) =~= self.rides@);
        }
        r
    }
}

} // verus!
