mod board;
mod candidates;
mod engine;
mod render;
mod validator;

pub use board::Board;
pub use candidates::build_candidate_table;
pub use engine::SolveOutcome;
pub use render::Glyph;
pub use validator::grid_valid;
