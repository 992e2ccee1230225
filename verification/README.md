# vectis-crdt

A conflict-free replicated document for collaborative whiteboards, with a relay
server, a client and bindings. The library under `src/` is verified with Verus;
`app/` holds what talks to sockets, browsers and Python.

## What is proved

Every function of the library has a contract over a mathematical model of its
data. On top of these stand laws, named `law_...`:

- Replicas that have applied the same operations, each in an order in which
  causes precede effects, hold the same strokes in the same order with the same
  properties, tombstones included (`agreement`, `convergence`, `session`); so do
  replicas that receive operations in any order through a causal buffer, which
  is empty once all have come (`delivery`). An operation that comes again
  changes nothing.
- What is written to the wire is read back: operations, updates, state vectors,
  cursors, protocol messages (`round_trip`, `protocol`, `awareness`). What
  breaks off is refused, and so is a frame with bytes behind it (`truncation`).
- A snapshot restores the document, also after a collection: the order, the
  strokes, the metadata and when it was written (`snapshot`).
- Garbage collection removes only tombstones that every peer has confirmed, and
  no visible stroke; replicas with the same operations and the same confirmed
  version collect alike (`gc`).
- Sessions of a room do not collide, a client that catches up gets all that it
  lacks, and frames that the server refuses reach nobody (`room`, `server`,
  `sync`).

## Layout

| Module | Contents |
| --- | --- |
| `types`, `rga`, `stroke`, `simplify`, `metadata`, `operation` | identifiers, clocks, the ordered list, strokes, last-writer-wins data |
| `document`, `causal_buffer`, `gc`, `session` | the document, delivery in causal order, collection, editing |
| `convergence`, `agreement`, `delivery`, `sync` | laws that relate replicas |
| `wire`, `encoding`, `snapshot`, `round_trip`, `truncation`, `compression`, `protocol`, `awareness` | bytes |
| `names`, `room`, `server`, `connection`, `client`, `demo`, `labels` | relay server, client, two-peer demo |
| `bridge`, `python` | the document as browser and Python hosts see it |
| `float`, `text`, `error` | float bits, texts, errors |

Floats are held by their bits. Where an algorithm needs floating-point
arithmetic, it takes the arithmetic as a function, and is proved for every such
function that gives one result for given arguments.

LZ4 compression is done by `lz4_flex`, and UTF-8 is read by the standard
library; the functions that call them state what is taken on trust.
