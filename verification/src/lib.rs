//! Core of a grid-based "rule block" puzzle game.
//!
//! Word tiles standing on the grid form `<noun> IS <property>` sentences that
//! are re-parsed every step into an attribute table; the table drives player
//! control, pushing, blocking, sinking, win detection and level selection.
//! The crate verifies the rule parser, the push-chain resolver, the per-step
//! action queue, the tile index, the motion bookkeeping and the undo/redo
//! recorder. Rendering, asset loading and input decoding live outside.

pub mod engine;
pub mod game_logic;
pub mod game_logic_types;
pub mod loading_levels;
pub mod push_chain;
pub mod resolve;
pub mod rule_parser;
