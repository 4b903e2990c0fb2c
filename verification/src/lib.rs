//! Timetable layout and change-diff engine for a school-timetable mirror:
//! weekly lesson data annotated with change status, derived per-teacher and
//! per-room views, gap filling, interval-overlap grouping with lane
//! assignment, and a fixed-width textual rendering.
pub mod model;
pub mod errors;
pub mod text;
pub mod order;
pub mod gaps;
pub mod grouping;
pub mod lanes;
pub mod aggregate;
pub mod table;
pub mod week;
pub mod session;
pub mod ingest;
pub mod menu;
