# Entropy

Erasure-coded storage over a set of peers, with its logic verified by Verus.

An object is coded into chunks, and each chunk into fragments, which go to the
peers whose identifiers are closest to the digests of the fragments. In each
repair epoch the oldest member of a chunk leaves, and a new one takes a fragment
over. For comparison objects can also be stored in plain parts, each at the three
peers closest to its digest.

- `src/` is the library. `peer` finds the closest peers; `app` is the state of a
  peer, which `entropy_upload`, `entropy_download`, `kademlia` and `repair` change;
  `app2` is a peer that only stores; `chunk` and `wirehair` keep the state of the
  codecs, and `fountain` states what follows for them where the C library is a
  fountain code; `plaza`, `session`, `benchmark_plaza` and `hosts` bring the peers
  together; `sorted_map`, `chunk_table` and `common` are what the others are built of; `hash`
  holds the outside functions that are trusted.
- `app/` runs the library: the HTTP services and clients, the files, the clock and
  the calls into the Wirehair C library.
- `tests/` runs it on examples.

A function that would need a file, a request or a codec says in its result what is
to be done, and the next one takes what came of it.

## Running

Write `hosts.txt` beside the program:

```
#service <SERVICE_HOST>
<HOST1>
<HOST2>
```

Run the plaza with `entropy <HOST> --plaza-service <PARTICIPANTS>`, and each peer
with `entropy <HOST> --port <PORT> --plaza <PLAZA> --num-host-peer <N>`. The peers
of a host listen on the ports from 10000 on.
