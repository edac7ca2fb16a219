//! A boids simulation on integers: agents of several species that flock, flee,
//! hunt, reproduce and die.
//!
//! The crate holds the simulation itself and nothing of its display: the
//! spatial hash grid that finds neighbours (`grid`), the scan that turns
//! neighbours into steering intents (`forces`), the integrator that turns
//! intents into headings and headings into positions (`integrator`), and the
//! rules of birth and death (`lifecycle`, `predation`, `reproduction`), over
//! the species table (`species`) and the agent store (`agents`). `world` ties
//! them into a simulation that advances tick by tick.
//!
//! Every quantity is a fixed-point integer, so that a run is the same on every
//! machine and every decision is exact:
//!
//! * lengths, positions and sizes count thousandths of a world unit;
//! * headings and steering directions are vectors of length `fixed::UNIT`;
//! * steering weights count thousandths, speeds thousandths of a world unit
//!   per second;
//! * times count microseconds, energies millionths.
//!
//! Two things are left open on purpose. The spatial grid hands out the agents
//! of a cell in no fixed order, and spawning draws positions and headings at
//! random. Where a result depends on either, its contract says which results
//! are possible, and `forces` shows which parts of a scan do not depend on the
//! order at all.
//!
//! The hash collections come from the engine's utility crate and the random
//! numbers from `rand`; `tables` and `chance` state what is taken on trust of
//! them.

pub mod agents;
pub mod chance;
pub mod fixed;
pub mod forces;
pub mod grid;
pub mod integrator;
pub mod lifecycle;
pub mod predation;
pub mod reproduction;
pub mod species;
pub mod tables;
pub mod world;
