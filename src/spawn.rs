use rand::seq::SliceRandom;
use vstd::prelude::*;
use crate::grid::{GridMap, MapObject};

verus! {

/// Why nothing could be spawned.
#[derive(Debug, Clone, Copy, PartialEq, Eq, Structural)]
pub enum Error {
    MapHasNoRooms,
}

/// Relies on rand's `SliceRandom::choose`: `None` for an empty slice, else one of its elements.
#[verifier::external_body]
fn choose_one<'a>(items: &'a [MapObject], rng: &mut rand::rngs::StdRng) -> (r: Option<&'a MapObject>)
    ensures
        r is None <==> items@.len() == 0,
        r matches Some(o) ==> items@.contains(*o),
{
    items.choose(rng)
}

/// A room of the map picked at random.
pub fn random_room<'a>(map: &'a GridMap, rng: &mut rand::rngs::StdRng) -> (r: Result<&'a MapObject, Error>)
    ensures
        r is Err <==> map.rooms_spec().len() == 0,
        r matches Err(e) ==> e == Error::MapHasNoRooms,
        r matches Ok(o) ==> map.rooms_spec().contains(*o),
{
    match choose_one(map.rooms(), rng) {
        Some(o) => Ok(o),
        None => Err(Error::MapHasNoRooms),
    }
}

} // verus!
