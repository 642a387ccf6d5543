# edge_ingest

A verified library for ingesting market data that several publishers mirror: it decodes their
datagrams, rebuilds order books, decides which publisher's copy of each update reaches the wire, and
keeps a bounded price history.

Everything under `src/` is Verus. The contracts speak of mathematical views (`ArbiterView`,
`GateView`, `AuthorityView`, `StoreView`, ...), and what holds of the library as a whole is stated and
proved in public proof functions named `law_..`.

| module | what it holds |
| --- | --- |
| `codec_common`, `codec`, `codec_mbo`, `codec_mbp` | the frame walk, and the Top-of-Book, Market-by-Order and Market-by-Price messages |
| `book`, `book_laws` | an order book rebuilt from snapshots and deltas |
| `accumulator` | the book that a stream of published batches adds up to |
| `floor`, `window` | the latch-to-leader floor for state, the window for events |
| `authority`, `arm_race` | which arm serves a universe, and the matched trades it is elected on |
| `order_race` | racing order events between publishers |
| `book_gate`, `tape`, `arbiter` | the gates for books and prints, and the emit stage in front of them |
| `gate_laws`, `arbiter_laws`, `run_laws` | laws of the gates and of the emit stage, step by step and over runs |
| `feeds`, `channel_filter` | the feed registry's rows and the channels an operator selects |
| `history`, `history_laws` | one-second candles and recent prints, within fixed budgets |
| `model`, `identity`, `effects` | messages, their identities, and what a step sends and counts |
| `table`, `recent`, `ordered`, `text` | keyed tables, queues, sorted listings and text |

Prices and sizes are fixed-point integers at ten to the minus eighteen. Clocks are read by the caller and
passed in, and a step returns what is to be sent and counted; `app/` performs it, with the broadcast
channel, the counters and the logs.
