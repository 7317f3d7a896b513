//! A directed graph of links between encyclopedia articles: taking the rows
//! of the tables out of a database dump, building the graph from them, and
//! answering shortest-path and eccentricity queries on it.

pub mod paths;
mod bfs;
pub mod sweep;
pub mod graph;
pub mod title;
pub mod text;
pub mod rows;
pub mod title_map;
pub mod generator;
pub mod extractor;
pub mod pages;
pub mod shell;
pub mod progress;
