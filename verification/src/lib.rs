pub mod board;
pub mod counting;
pub mod engine;
pub mod generate;
pub mod laws;
pub mod settings;
pub mod tile;

pub use board::Board;
pub use engine::game_state;
pub use engine::handle_click;
pub use engine::GameState;
pub use engine::reveal_tile;
pub use engine::right_click;
pub use engine::toggle_flag;
pub use engine::InputSnapshot;
pub use generate::generate_board;
pub use generate::with_mines;
pub use settings::BoardSetting;
pub use tile::Tile;
pub use tile::TileState;
pub use tile::TileType;
