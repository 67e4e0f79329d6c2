//! Route planning for a fixed-duration sailing race.
//!
//! A course is a set of buoys joined by start lines and legs. Together with a
//! boat's polar table and an hourly wind schedule it determines how fast any
//! leg can be sailed at any moment, and which multi-leg routes are open under
//! the per-leg usage limits.
//!
//! Every quantity is a fixed-point integer. Speeds are in thousandths of a
//! knot, distances in thousandths of a nautical mile, times in thousandths of
//! an hour and angles in thousandths of a degree; buoy positions are in
//! millionths of a degree. The bearing from one buoy to another is trigonometry
//! on decimal degrees and is handed in as a table.

pub mod units;
pub mod coordinates;
pub mod polar;
pub mod polar_text;
pub mod wind;
pub mod data;
pub mod graph;
pub mod optimize;
pub mod walks;
