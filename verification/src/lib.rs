//! Gossip consensus for a drone swarm: a CPython-compatible MT19937
//! generator, the semilattice merge of agent states, and the simulation of
//! gossip on a 6 × 5 grid.

pub mod rng;
pub mod sample;
pub mod sim;
pub mod simulation;
pub mod duplication;
pub mod convergence;
pub mod trafic;

pub use rng::PyRandom;
pub use sim::{fusion, voisins, Etat, FANOUT, GRID_H, GRID_W, N};
pub use simulation::{simuler, Params, Resultat};
