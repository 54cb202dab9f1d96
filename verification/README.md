# earthnet-node

Node for the EarthNet earthquake early-warning network. It ingests signed
observations from country adapters and sensors, fuses them, reaches consensus,
and emits signed events that trigger client alarms.

## Trust model

- **OFFICIAL** source with a P-wave pick: fires on its own.
- **PHONE** source: requires consensus of at least N picks within a radius and a
  time window of each other.

## Layout

- `src/` is the verified library. Its contracts are checked by Verus.
  - `fusion`: the fusion engine, its events and its clock
  - `cluster`: which picks make a consensus
  - `trust`: what holds of every observation
  - `history`: what holds over any sequence of observations
  - `geo`: geohash cells
  - `identity`: the node's key and its persisted form
  - `locate`: the hypocenter grid search
  - `magnitude`: bounds on magnitude estimates
  - `reputation`: weights of identities and their persisted form
  - `server`: what a request is answered, and what is done about it
  - `message`, `double`, `text`: what these share
- `app/` is the program around it: HTTP, files, the wire protocol, and whatever
  needs floating point.
- `tests/` run the library.

The library holds floating-point numbers as bit patterns and takes functions for
what must be computed on them: distances, residuals, decay. Its contracts hold
for whatever those functions return. Signatures and message decoding are handed
in the same way.

## Ingest API

```
POST /observations    body = Observation protobuf
POST /signals         body = Signal protobuf
  202 Accepted     verified + ingested
  400 Bad Request  undecodable / bad fields
  401 Unauthorized signature failed
GET  /health          "ok"
```

## Environment

`EARTHNET_NODE_ADDR` (127.0.0.1:8080), `EARTHNET_CONSENSUS_N` (3),
`EARTHNET_CONSENSUS_RADIUS_KM` (100), `EARTHNET_CONSENSUS_WINDOW_S` (30),
`EARTHNET_NODE_KEY_FILE` (node_key.hex), `EARTHNET_NODE_KEY` (hex seed, overrides
the file).
