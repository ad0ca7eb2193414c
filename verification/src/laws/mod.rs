//! What the functions of the library are for: relations between what goes in and
//! what comes out, stated of the values themselves.
pub mod amounts;
pub mod backends;
pub mod cycles;
pub mod extraction;
pub mod judgement;
pub mod logs;
pub mod measures;
pub mod objectives;
pub mod outcomes;
pub mod setup;
pub mod simplification;
pub mod staging;
pub mod starts;
pub mod texts;
pub mod ties;
pub mod validity;
