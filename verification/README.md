# toybox

A handful of small programs whose rules are a verified Verus library.

- `src/fib.rs`: memoised Fibonacci numbers (also computed on rayon's pool)
  and memoised counting of the paths through a grid.
- `src/tictactoe.rs`: the board, moves, wins and draws of tic-tac-toe.
- `src/aim.rs`: the 5x5 grid of targets of an aim-training game, its clicks,
  rounds and options screen.
- `src/scores.rs`: the best-scores file of that game (reading, writing,
  keeping the five best) and today's date.
- `src/cat.rs`: the options of a `cat` with line numbers, head and tail, and
  which lines it prints.
- `src/mailer.rs`: which files a mail sender sends.
- `src/text.rs`: characters, whitespace, decimal writing and integer parsing.

`app/` holds the programs themselves (terminal, window, files and mail),
chosen by the first argument: `fib`, `tictactoe`, `mailer`, `mailer-epub`,
`cat`, `aim`. The mail sender reads its password from `MAILER_PASSWORD`.
