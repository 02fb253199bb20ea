//! Strategy determination for BPMN+CPI: given a business process with
//! decisions, chance and multi-dimensional costs, is there a way of taking the
//! decisions that keeps the expected cost under a budget, in every component at
//! once, and if there is, which one.
//!
//! The process and its runs: `tree`, `semantics`, `state`, `progress`,
//! `length`, `strategy`, `unfolding`, `history`, `marks`. The estimates and the
//! exact values: `bound`, `enclosure`, `envelope`, `exact`, `ending`,
//! `optimal`, `achievable`, `attaining`, `oracle`. The search: `tables`,
//! `label`, `frontier`, `ct`, `draw`, `pool`, `bench`, `effort`, `search`,
//! `play`, `sharing`, `verdict`, `tighten`. Reading and writing: `scan`, `grammar`,
//! `spacing`, `writer`, `reader`, `layout`, `roundtrip`, `mdp`, `args`,
//! `budget`, `report`. The emitted model: `prism`, `clocks`, `commands`,
//! `trail`. Numbers are a parameter of all of it: `num` says what is asked of
//! them, `decimal` answers it exactly. What the texts say: `cutting`, `figures`
//! and `literal` of pieces and of numbers, `spelling` of processes, `filing` of
//! process files, `settings` and `asking` of command lines and budgets,
//! `telling` of dumps, `pages` of reports, `formulas` of the emitted model; and
//! `electing` of the draw.

pub mod achievable;
pub mod arena;
pub mod args;
pub mod asking;
pub mod attaining;
pub mod bench;
pub mod bound;
pub mod budget;
pub mod clocks;
pub mod commands;
pub mod config;
pub mod ct;
pub mod cutting;
pub mod decimal;
pub mod digits;
pub mod draw;
pub mod effort;
pub mod electing;
pub mod enclosure;
pub mod ending;
pub mod envelope;
pub mod exact;
pub mod figures;
pub mod filing;
pub mod formulas;
pub mod frontier;
pub mod grammar;
pub mod hash;
pub mod history;
pub mod label;
pub mod layout;
pub mod length;
pub mod list;
pub mod literal;
pub mod marks;
pub mod mdp;
pub mod num;
pub mod optimal;
pub mod oracle;
pub mod pages;
pub mod play;
pub mod pool;
pub mod prism;
pub mod progress;
pub mod reader;
pub mod reals;
pub mod report;
pub mod roundtrip;
pub mod scan;
pub mod search;
pub mod semantics;
pub mod settings;
pub mod sharing;
pub mod spacing;
pub mod spelling;
pub mod state;
pub mod strategy;
pub mod tables;
pub mod telling;
pub mod text;
pub mod tighten;
pub mod trail;
pub mod tree;
pub mod unfolding;
pub mod verdict;
pub mod words;
pub mod writer;
