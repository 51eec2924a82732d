//! The building blocks of the double dummy solver: bit fields of the cards per suit, the
//! relative ("virtual") ranks of the cards still in play, the distribution of the cards
//! among the seats, the transposition table, and the trick estimations.
pub mod bits;
pub mod suit_field;
pub mod card_tracker;
pub mod card_manager;
pub mod virtual_card;
pub mod virtualizer;
pub mod virtual_card_tracker;
pub mod trick_estimations;
pub mod distribution_field;
pub mod transposition_table;
pub mod double_dummy_result;
pub mod dds_statistics;
pub mod dds_config;
pub mod move_generator;
pub mod trick_manager;
pub mod double_dummy_state;
pub mod virtual_state;
pub mod double_dummy_runner;
pub mod double_dummy_solver;
pub mod perfect_play;
pub mod touching_moves;
pub mod rank_compression;
