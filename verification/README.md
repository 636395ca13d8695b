# nnue-rs

A library for loading and evaluating NNUE (Efficiently Updatable Neural Network)
networks, written and proved in Verus.

| Architecture                             | Load | Evaluate |
|------------------------------------------|------|----------|
| HalfKAv2_hm (mirrored king-relative)     | yes  | yes      |
| HalfKAv2 (king-relative)                 | yes  | yes      |
| HalfKP                                   | yes  | yes      |
| HalfKAv2_hm with attack features         | yes  | yes      |

## Usage

By FEN:

```rust
let network = Network::from_bytes(&bytes)?;
let score = network.evaluate_fen("rnbqkbnr/pppppppp/8/8/8/8/PPPPPPPP/RNBQKBNR w KQkq - 0 1")?;
```

By implementing `Board` on a position type:

```rust
impl Board for MyPosition {
    fn side_to_move(&self) -> Color { /* ... */ }
    fn king_square(&self, color: Color) -> u8 { /* ... */ }
    fn for_each_piece(&self) -> Vec<(u8, Piece)> { /* ... */ }
}

let score = network.evaluate(&my_position);
```

Squares are `0..64` with `a1 = 0`. Scores are in internal network units from the
perspective of the side to move.

## Layout

- `src/types.rs`: colours, pieces, the `Board` trait
- `src/feature.rs`, `src/threats.rs`: which features a position switches on
- `src/model.rs`: what accumulators hold and what a network computes from them
- `src/network/`: loading, accumulating and evaluating
- `src/format.rs`, `src/leb128.rs`, `src/reader.rs`: the file format
- `src/fen.rs`: FEN records
- `src/simd.rs`, `src/arith.rs`: the arithmetic of the layers
- `src/laws.rs`, `src/symmetry.rs`: what holds of the library as a whole
- `app/`: files, streams and boards with callbacks
