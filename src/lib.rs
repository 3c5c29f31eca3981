pub mod chess;
pub mod labyrinth;
pub mod nonogram;
pub mod seqs;
pub mod text;
