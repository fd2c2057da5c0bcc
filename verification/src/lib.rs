//! Games of imperfect information on finite graphs, the (multi-agent)
//! knowledge-based subset construction, and reachability strategy synthesis.

pub mod types;
pub mod index;
pub mod symbol;
pub mod union_find;
pub mod sparse;
pub mod outcome;
pub mod game;
pub mod profiles;
pub mod game_queries;
pub mod outcomes;
pub mod loc_set;
pub mod obs_subset;
pub mod explore;
pub mod order;
pub mod construct;
pub mod project;
pub mod kbsc;
pub mod combos;
pub mod mkbsc;
pub mod parser;
pub mod tex;
pub mod text;
pub mod roundtrip;
pub mod isomorphism;
pub mod io_game;
pub mod strategy;
pub mod memoryless;
pub mod synthesis;
pub mod copy;
pub mod stack;
pub mod transfer;
