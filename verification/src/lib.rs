//! Refreshment stops along a bike route: where they are, when the rider gets
//! there, and whether they are open then.
//!
//! - [`hours`] reads OpenStreetMap `opening_hours`; [`schedule`] and [`written`]
//!   state that what is written is what is read, and [`unreadable`] what becomes of
//!   everything else.
//! - [`gpx_parse`] takes the route out of a GPX document; [`gpx_times`] says which
//!   documents can be read.
//! - [`overpass`] names the points of interest that the Overpass service lists,
//!   [`json`] holds its answers, and [`lookup`] decides between the cache and the
//!   service.
//! - [`handlers`] checks a request and puts an analysis together.
//! - [`elements`] and [`rides`] state the laws of the answers and of the rides on
//!   what goes in and comes out, and [`views`] that a value shows what it holds.
//! - [`text`], [`clock`] and [`binary64`] hold what the others build on.
//!
//! Distances and coordinates are computed outside the library, which carries
//! them by their bit patterns and compares them.

pub mod binary64;
pub mod clock;
pub mod elements;
pub mod gpx_parse;
pub mod gpx_times;
pub mod handlers;
pub mod hours;
pub mod json;
pub mod lookup;
pub mod overpass;
pub mod rides;
pub mod schedule;
pub mod text;
pub mod unreadable;
pub mod views;
pub mod written;
