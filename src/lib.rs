//! Counting the trees met when sliding down a terrain grid that repeats
//! endlessly to the right, one fixed slope at a time.
pub mod piste;
pub mod slope;
pub mod terrain;
