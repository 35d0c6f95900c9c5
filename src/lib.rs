//! Puzzle solvers, centred on a shortest-path engine over a cost grid whose
//! routes are constrained in how long they may run straight.

pub mod grid;
pub mod index;
pub mod movement;
pub mod search;
pub mod text;
pub mod optimality;
pub mod day01;
pub mod day02;
pub mod day03;
pub mod day04;
pub mod day05;
pub mod day06;
pub mod day07;
pub mod day08;
pub mod day09;
pub mod day11;
pub mod day12;
pub mod day14;
pub mod day15;
pub mod day16;
pub mod day17;
pub mod day18;
