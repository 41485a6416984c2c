//! Monte-Carlo tree search for a turn-based tactical combat game on a fixed grid.
//!
//! The crate is organised leaf-first: grid geometry tables, the board with its
//! range and line-of-sight queries, the turn state machine, actions, and the
//! search tree with its controller. Contracts are stated over the mathematical
//! views of the data; the laws that relate several functions are proof
//! functions next to the definitions they speak of.

pub mod action;
pub mod board;
pub mod error;
pub mod geometry;
pub mod node;
pub mod pieces;
pub mod random;
pub mod range;
pub mod search;
pub mod state;
pub mod tree;
pub mod vec2;

pub use action::{Action, ActionType};
pub use board::{Board, BoardView};
pub use error::CombatError;
pub use geometry::{Geometry, GeometryView};
pub use node::{TreeNode, TreeNodeView};
pub use pieces::{Ability, Piece, PieceData, PieceView, Stat};
pub use random::RandomSource;
pub use search::{MonteCarloTreeSearch, MonteCarloTreeSearchView};
pub use state::{Actor, State, StateView};
pub use tree::{SearchTree, SearchTreeView, UctScorer, WinRatio};
pub use vec2::Vec2;
