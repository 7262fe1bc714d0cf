use crate::detector::Reading;
use crate::key::{hash_controller_path, key_of, ConnectorKey};
use crate::state::ConnectorState;
use vstd::prelude::*;

verus! {

/// A controller could not be queried: its handle is no longer valid (it was
/// hot-removed) or the query itself failed.
#[derive(Clone, Copy, Debug, PartialEq, Eq, Structural)]
pub struct DeviceQueryError {
    /// The operating system's error number, or 0 where there is none.
    pub code: i32,
}

/// The outcome of querying one controller: its device path and, on success,
/// the id and state of each connector it enumerates.
pub struct ControllerReading {
    pub path: String,
    pub connectors: Result<Vec<(u32, ConnectorState)>, DeviceQueryError>,
}

/// The keyed readings of one controller's connectors, in its order.
pub open spec fn readings_of(path: Seq<char>, connectors: Seq<(u32, ConnectorState)>) -> Seq<Reading> {
    connectors.map_values(|c: (u32, ConnectorState)| (key_of(path, c.0), c.1))
}

/// What one controller adds to the state vector: nothing if it failed.
pub open spec fn controller_part(r: ControllerReading) -> Seq<Reading> {
    match r.connectors {
        Ok(v) => readings_of(r.path@, v@),
        Err(_) => Seq::empty(),
    }
}

/// The flat state vector of all controllers, in controller order.
pub open spec fn flatten_readings(rs: Seq<ControllerReading>) -> Seq<Reading>
    decreases rs.len(),
{
    if rs.len() == 0 {
        Seq::empty()
    } else {
        flatten_readings(rs.drop_last()) + controller_part(rs.last())
    }
}

/// Keys every connector reading of the controller at `path`.
pub fn controller_snapshot(path: &str, connectors: &Vec<(u32, ConnectorState)>) -> (r: Vec<Reading>)
    ensures
        r@ == readings_of(path@, connectors@),
{
    let card_hash = hash_controller_path(path);
    let mut r: Vec<Reading> = Vec::new();
    let mut i: usize = 0;
    while i < connectors.len()
        invariant
            i <= connectors@.len(),
            card_hash == crate::key::controller_hash(path@),
            r@ == readings_of(path@, connectors@.take(i as int)),
        decreases connectors@.len() - i,
    {
        let (connector_id, state) = connectors[i];
        r.push((ConnectorKey { card_hash, connector_id }, state));
        proof {
            assert(readings_of(path@, connectors@.take(i as int + 1))
                =~= readings_of(path@, connectors@.take(i as int)).push((key_of(path@, connector_id), state)));
        }
        i = i + 1;
    }
    assert(connectors@.take(connectors@.len() as int) =~= connectors@);
    r
}

/// Flattens the readings of all controllers into one state vector. A
/// controller whose query failed contributes nothing, so one failure does
/// not hold up the others.
pub fn snapshot_all(readings: &Vec<ControllerReading>) -> (r: Vec<Reading>)
    ensures
        r@ == flatten_readings(readings@),
{
    let mut out: Vec<Reading> = Vec::new();
    let mut i: usize = 0;
    while i < readings.len()
        invariant
            i <= readings@.len(),
            out@ == flatten_readings(readings@.take(i as int)),
        decreases readings@.len() - i,
    {
        let reading = &readings[i];
        proof {
            assert(readings@.take(i as int + 1).drop_last() =~= readings@.take(i as int));
        }
        match &reading.connectors {
            Ok(connectors) => {
                let mut part = controller_snapshot(reading.path.as_str(), connectors);
                out.append(&mut part);
            },
            Err(_) => {
                assert(out@ =~= out@ + Seq::<Reading>::empty());
            },
        }
        i = i + 1;
    }
    assert(readings@.take(readings@.len() as int) =~= readings@);
    out
}

} // verus!
