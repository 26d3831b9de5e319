use vstd::prelude::*;

verus! {

/// A customer to be visited by the vehicle (its position is known to the
/// caller, which measures the legs between stops).
pub struct Customer {
    pub id: usize,
    pub name: String,
    /// Earliest arrival time.
    pub window_open: i64,
    /// Latest arrival time (must arrive by this time).
    pub window_close: i64,
    /// Service duration at this customer.
    pub service_time: i64,
}

/// The depot: the vehicle starts and ends here.
pub struct Depot {
    pub ready_time: i64,
    pub due_time: i64,
}

/// A single-vehicle routing request with time windows. Customers are
/// optional: the aim is to visit as many as the windows and the return
/// deadline allow.
pub struct VrptwRequest {
    pub id: String,
    pub depot: Depot,
    pub customers: Vec<Customer>,
}

/// The legs between stops. Node 0 is the depot, node `i + 1` is customer `i`.
/// `time[a][b]` is the travel time from node `a` to node `b` (the Euclidean
/// distance rounded up); `rank[a][b]` orders the destinations of node `a`
/// by distance: a smaller rank is a shorter leg, equal ranks equal legs.
pub struct Legs {
    pub time: Vec<Vec<i64>>,
    pub rank: Vec<Vec<u64>>,
}

/// One stop in the vehicle's route.
pub struct RouteStop {
    pub customer_id: usize,
    pub customer_name: String,
    pub arrival: i64,
    pub departure: i64,
}

/// A route: depot, then the stops in order, then back to the depot.
pub struct VrptwPlan {
    pub request_id: String,
    /// Ordered stops (depot → customers → depot is implied).
    pub route: Vec<RouteStop>,
    pub customers_total: usize,
    pub customers_visited: usize,
    /// Time the vehicle returns to depot.
    pub return_time: i64,
    pub solver: String,
    pub status: String,
}

/// Both tables are square over the depot and all customers.
pub open spec fn legs_fit(req: VrptwRequest, legs: Legs) -> bool {
    let n = req.customers@.len() + 1;
    &&& legs.time@.len() == n
    &&& legs.rank@.len() == n
    &&& forall|a: int| 0 <= a < n ==> (#[trigger] legs.time@[a])@.len() == n
    &&& forall|a: int| 0 <= a < n ==> (#[trigger] legs.rank@[a])@.len() == n
}

pub open spec fn leg_time(legs: Legs, a: int, b: int) -> int {
    legs.time@[a]@[b] as int
}

pub open spec fn leg_rank(legs: Legs, a: int, b: int) -> int {
    legs.rank@[a]@[b] as int
}

/// What keeps every time the router stores within `i64`: travel times are
/// nonnegative; a customer's window opening plus its service time is at
/// least `i64::MIN` (so a departure never falls below it); and the depot's
/// ready time plus its own leg fits (the return time of an empty route).
/// Departures are bounded above by the depot's due time.
pub open spec fn times_fit(req: VrptwRequest, legs: Legs) -> bool {
    let n = req.customers@.len() + 1;
    &&& forall|a: int, b: int| 0 <= a < n && 0 <= b < n ==> 0 <= #[trigger] leg_time(legs, a, b)
    &&& forall|i: int|
        0 <= i < req.customers@.len() ==> i64::MIN <= (#[trigger] req.customers@[i]).window_open
            + req.customers@[i].service_time
    &&& req.depot.ready_time + leg_time(legs, 0, 0) <= i64::MAX
}

} // verus!
