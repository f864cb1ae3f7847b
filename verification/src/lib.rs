//! A planned-economy city simulation: the discrete rules of its tick —
//! clocks, households and housing, labour, freight dispatch, transit and
//! commutes, road and utility graphs, construction, and the save format —
//! with their contracts.

pub mod buildings;
pub mod citizens;
pub mod clock;
pub mod commute;
pub mod construction;
pub mod customs;
pub mod dispatch;
pub mod households;
pub mod labour;
pub mod needs;
pub mod network;
pub mod pathfinding;
pub mod plan;
pub mod production;
pub mod resources;
pub mod roads;
pub mod save;
pub mod stages;
pub mod traffic;
pub mod transit;
pub mod vehicles;
pub mod wires;
pub mod zoning;
