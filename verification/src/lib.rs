pub mod grid;
pub mod kakuro;
pub mod tapa;
pub mod yajilin;
