//! Seat apportionment for elections by the highest-averages (D'Hondt) method.
//!
//! The crate aggregates per-candidate vote records into party totals,
//! distributes a requested number of seats among the parties by repeatedly
//! awarding the next seat to the party with the largest divisor-adjusted
//! average, selects the elected candidates within each party, and renders a
//! column-aligned plain-text report.

pub mod dhondt;
pub mod numeric;
pub mod ranking;
pub mod report;
pub mod table_columns;
pub mod validation;
