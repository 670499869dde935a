//! An estimation-of-distribution evolutionary-algorithm runtime for discrete
//! optimization: search-space domains, populations, probabilistic models
//! (univariate and multivariate with MDL-guided linkage learning), variation
//! and selection operators, and a generational driver.

pub mod bitstring;
pub mod ecga;
pub mod entropy;
pub mod fitness;
pub mod gene;
pub mod genome;
pub mod individual;
pub mod model;
pub mod rng;
pub mod selection;
pub mod simplega;
pub mod variation;
