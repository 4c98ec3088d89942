//! Small games and utilities: memoised Fibonacci and grid-path counting,
//! tic-tac-toe rules, the rules of a 5x5 aim-training game with its
//! best-scores file, line selection for a `cat`-like tool, and the file
//! filter of a mail sender.
pub mod fib;
pub mod tictactoe;
pub mod text;
pub mod aim;
pub mod scores;
pub mod cat;
pub mod mailer;
