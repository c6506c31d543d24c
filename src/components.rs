use vstd::prelude::*;

verus! {

/// Marks an entity as a creep that walks the map.
#[derive(Debug, Clone, Copy, Default)]
pub struct Creep;

/// Marks a tower that fires bullets.
#[derive(Debug, Clone, Copy, Default)]
pub struct BulletTower;

} // verus!
