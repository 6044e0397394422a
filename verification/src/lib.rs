//! Navigation for a 2D platforming agent.
//!
//! A navmesh is built from the polygons of a level: nodes are placed along
//! the edges an agent can stand on and connected for walking, nodes that
//! fall on top of each other are merged into corners, and nodes of different
//! polygons are connected where a jump between them is possible. A
//! best-first search finds the way from the agent to a goal over the
//! navmesh, and steering turns the first edge of that way into a direction
//! to move in and, where the edge is a jump, a launch velocity.
//!
//! All quantities are fixed-point integers. One world unit is
//! [`math::UNIT`] sub-units, one simulation tick is [`math::TIME_UNIT`]
//! sub-ticks, and a direction is a vector at most [`math::UNIT`] long and
//! less than three sub-units short of it. Quotients round toward zero.
//! Square roots round down, but for the length that a direction is divided
//! by, which rounds up.
//!
//! The modules, from the ground up:
//!
//! - [`math`], [`vec2`], [`utils`]: arithmetic, vectors, segment intersection.
//! - [`level`]: the polygons of a level.
//! - [`pathfinding`]: the navmesh and what it means for it to be in order.
//! - [`placement`], [`symmetry`], [`dedup`], [`renumber`]: the stages that
//!   build the part of the navmesh that is walked.
//! - [`ballistics`], [`jumping`]: jump arcs and jump connections.
//! - [`surface`]: normals and corners.
//! - [`navmesh`]: the whole build.
//! - [`a_star`], [`expansion`], [`search`], [`chain`]: the search, the course
//!   it takes, what holds of its lists, and what it finds on simple graphs.
//! - [`platformer_ai`]: steering and the agent's tick.
//! - [`goal`]: moving the goal.
pub mod math;
pub mod vec2;
pub mod utils;
pub mod level;
pub mod pathfinding;
pub mod placement;
pub mod symmetry;
pub mod dedup;
pub mod renumber;
pub mod ballistics;
pub mod jumping;
pub mod surface;
pub mod navmesh;
pub mod a_star;
pub mod expansion;
pub mod search;
pub mod chain;
pub mod platformer_ai;
pub mod goal;
