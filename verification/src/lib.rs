pub mod fundamentals;
pub mod graph;
pub mod randomization;
pub mod searching;
pub mod sorting;
