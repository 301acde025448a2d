# ffce_engine

The rules engine of Flow Field Chess, verified with Verus, and the browser
engine built around it.

Flow Field Chess plays standard chess on an 8x8 board. Its AI builds flow
fields over the board (pressure, attack, resistance, trace, flow and
thirteen optional extra fields) and picks the move with the best resulting
score.

## Layout

- `src/` — the verified library. Every function carries a contract over a
  mathematical model of the board (`BoardModel`):
  - `board.rs`: board, pieces and moves; pseudo-legal and legal move
    generation (the exact sequence of moves, in generation order), move
    application, attack and check detection, position fingerprints.
  - `laws.rs`: properties that span operations — a position in play stays
    in play (well formed, castling rights with their king and rook at home,
    en-passant square off the back ranks), a pseudo-legal move keeps a
    position well formed and kills at most the piece it captures,
    fingerprints ignore piece ids.
  - `play.rs`: laws of legal play — from the start position, legal moves of
    the side to move never capture a king, and every position reached keeps
    one king per colour, the side not to move out of check and the
    en-passant square behind the pawn that made the double step; the moves
    generated there are pairwise distinct.
  - `fields.rs`: the integer geometry the flow fields use — move paths,
    reachable and target squares, pawn cover, pawn runs and passed pawns,
    king-zone rings, mobility counts and the cellular-automaton step.
  - `regions.rs`: four-connected regions of a board that reach a zone.
  - `ai.rs`: the seeded random stream, the Fisher–Yates shuffle, the list
    of disabled extras, the repetition test and the decisions of the loop
    watchdog (which extra to switch on next, when to stop, when to fall
    back).
  - `engine.rs`: encodings and requests of the browser interface — board
    snapshot, move bytes and packing, move lookup, game status.
  - `constants.rs`, `seq_facts.rs`: piece codes, offsets, directions and
    small sequence facts.
- `tests/` — tests of the library, including perft counts from the start
  position.
- `app/` — the browser engine: the C-ABI surface, the floating-point flow
  fields, evaluation, extra fields, quaternion motion intent and the AI's
  move choice, all calling the verified library for rules and geometry.
