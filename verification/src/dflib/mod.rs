pub mod funcs;
pub mod procs;
pub mod tables;
