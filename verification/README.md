# problems

Verified solvers for three puzzles, written in Verus.

- `src/almanac.rs`: almanac maps (`destination source length` lines), the
  image of single numbers and of whole ranges, and the lowest location of a
  list of seeds or seed ranges through seven maps.
- `src/camel_cards.rs`, `src/camel_cards_better.rs`: camel card hands, their
  kinds (with the joker `J`, and in the second also with plain jacks), their
  order, and the total winnings of a list of bids; `src/hands.rs` holds the
  model that both share.
- `src/max_seq_len.rs`: the length of the longest strictly increasing run
  that can be picked out of a sequence.
- `src/text.rs`, `src/sort.rs`: splitting, lines, trimming and integer
  parsing as `str` does them, and a stable sort by key.

`app/` holds the programs that print the answers for the puzzle inputs.
