# consensus_rs

Gossip consensus for a swarm of 30 agents on a 6 × 5 grid, verified with
Verus.

- `src/rng.rs` — MT19937 generator compatible with CPython's `random.Random`
  (seeding by `init_by_array` on the seed's 32-bit words, one zero word for
  seed 0, `getrandbits`, `_randbelow`, `randint`). A
  generator is modelled by the infinite stream of its future outputs;
  output `j` is the tempered word `x[624 + j]` of the Mersenne Twister
  recurrence started from the seeded block.
- `src/sample.rs` — `random.sample`: CPython's pool and selection-set
  methods, drawing without replacement in selection order.
- `src/sim.rs` — the semilattice merge of agent states (laws: commutative,
  associative, idempotent, order- and duplicate-independent) and the grid
  neighbourhood (laws: inside the grid, symmetric).
- `src/simulation.rs` — the simulation itself, specified period by period
  as a function of the seed and the parameters (laws: convergence is
  recorded exactly when a run ends in agreement, a real divergence delays
  it past the partition, forcing a divergence leaves the maximum in the
  left half only, some agent always stays active, the message count never
  wraps).
- `src/duplication.rs` — copies of messages change only the message count:
  with no loss and no removal, a run with `d` copies ends like the run with
  one copy and sends `d` times as many messages.
- `src/convergence.rs` — convergence is guaranteed: with no loss, no
  latency, no removal and no partition, the largest initial state spreads
  one cell per period, so every run of at least 9 periods (the grid's
  diameter) converges by period 9.
- `src/trafic.rs` — without removal or partition, each period sends one
  message per copy along each of the grid's 98 directed links.
- `app/lib.rs` — what stays in floating point: `random()` as an `f64`, and
  parameters that give the loss as a probability.

The loss test `random() < perte` is carried in the library by an integer:
a message is lost when the 53-bit integer behind `random()` is below
`ceil(perte * 2**53)`.
