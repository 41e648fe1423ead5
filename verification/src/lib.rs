//! Decisions of a container supervisor: which container a process runs,
//! what kind of load that container was started with, in which order the
//! processes are ranked and which containers are to be stopped.

pub mod analyzer;
pub mod container;
pub mod json;
pub mod order;
pub mod sort;
pub mod text;
