use vstd::prelude::*;

pub mod fixture;
pub mod grid;
pub mod panels;
pub mod parts;
pub mod pick;
pub mod plume;
pub mod ledger;
pub mod nets;
pub mod procedural;
pub mod radio;
pub mod range;
pub mod reader;
pub mod refit;
pub mod rolls;
pub mod ship_hull;
pub mod signin;
pub mod surfaces;
pub mod surface_nets;
pub mod system_panel;
pub mod telescope;
pub mod truss;
pub mod words;

verus! {

} // verus!
