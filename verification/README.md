# immunepuzzle

Hexagonal edge-matching puzzles: a verified library that draws, generates,
repairs and solves them, and a program around it.

A board is a hexagon of hexagonal cells. A piece carries six signed edge
values; two neighbouring pieces fit when their facing values cancel, and every
value on the rim of the board is zero. True pieces fill the board, false pieces
mislead.

## Library (`src/`)

| module | what it holds |
| --- | --- |
| `grid` | cells, boards, directions and rotations |
| `ascending` | lists in ascending order |
| `edges`, `clusters` | inner edges, spanning trees, growing clusters of cells |
| `solver`, `search`, `solutions`, `node_limits` | the placement solver, its model, what its counts mean, and what its node limit does |
| `generator`, `id_plan`, `orient`, `repair`, `decoys` | generating a puzzle: ids, sides, repair of pieces, false clusters |
| `geometry`, `edge_map` | canonical rotations, edge shapes, the memo of outlines, crossings |
| `candidate`, `trial`, `trial_pieces`, `trial_ids`, `trial_decoys`, `shapes` | one trial of a run, and the best of a run |
| `trial_solver`, `trial_search`, `trial_laws` | the solver of a trial, its model, and what its counts mean |
| `config`, `number` | the settings on the command line |
| `rng` | the random draws |

Everything in the library is verified with Verus, except the wrappers in
`rng`, which call the `rand` crate. What is proved holds for every sequence of
draws. Proof functions whose names begin with `law_` state what holds of
several functions together.

Lengths and heights are whole tenths in the library, ratios are numbers of
equally likely rolls, and outlines and ratings are the caller's: functions that
need them take closures.

## Program (`app/`)

The program reads the command line, asks the library for the best puzzle of a
run, prints it as JSON, and draws it if asked to. Points, distances, penalties
and other floating-point numbers are here.
