//! Verified core of a small set of generative compositions: rational beat and
//! interval arithmetic, scale lookup, and the schedules that each voice plays.
pub mod units;
pub mod pitch;
pub mod timeline;
pub mod chance;
pub mod parts;
pub mod lean_sneeze;
pub mod taboo_plate;
pub mod misty_spiders;
pub mod placid_lace;
pub mod hesitant_smoke;
pub mod strategically_pedalling;
