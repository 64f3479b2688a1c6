//! Monte Carlo search for the largest number of hits of one symbol among
//! 231 uniform draws from four symbols, with a bit-packed trial evaluator,
//! an exact near-even split of trials across workers, and a shared best.
pub mod evaluator;
pub mod partition;
pub mod sampling;
pub mod worker;
