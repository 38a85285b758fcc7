//! Verified core of an NEC-2 antenna-deck toolchain: deck text parsing,
//! template substitution, project manifests and run history, the integer
//! bookkeeping of geometry, the topology of wire junctions and conductor
//! paths, solver routing, and the layout of the text report.

pub mod text;
pub mod template;
pub mod card;
pub mod parser;
pub mod project;
pub mod geometry;
pub mod solver;
pub mod excitation;
pub mod mpie;
pub mod topology;
pub mod report;
pub mod frequency;
pub mod network;
pub mod loops;
pub mod walks;
