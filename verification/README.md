# erebus_inputs

The inputs of the erebus chess net, and the bookkeeping of its training runs,
verified with Verus.

A position is seen by the side to move. Its inputs are the 768 piece-square inputs
in the bucket of the king square, followed by 90384 threat inputs. A threat is a
piece that attacks an occupied square of either colour. Its number follows from the
attacker (side, kind and square), the victim (side and kind) and the victim's
square: threats are numbered by attacker variant (side and kind), then by attacker
square, then by victim variant, then by victim square, and no number is left out.
Every threat has a second number, the one that it gets when the board is mirrored
and the sides are exchanged.

- `src/` is the library. What it states:
  - which squares each piece attacks (`attacks`);
  - that the numbering is one to one onto 0..90384 (`layout`, `tables`);
  - that a board's list of threats holds each of them once, in order (`threats`),
    and that mirroring the board exchanges the two numbers of each (`mirror`);
  - that all inputs are in range (`inputs`);
  - which positions are trained on (`filter`);
  - how long a session is and where it resumes (`session`, `checkpoints`).
- `app/` is the trainer itself, on top of `bullet_lib`.
- `tests/` runs the library on known positions.

Two outside calls are trusted, each with a contract: the walk over the pieces of a
`bulletformat::ChessBoard` (in `board`), and `Position::is_checked` of `sfbinpack`
(in `filter`).
