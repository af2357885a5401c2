# h2proxy

The core of an HTTP/2 multiplexing reverse proxy, verified with Verus: the frame
codec, HPACK, the stream state machine and flow control, the two connection
engines (the server side that faces clients, the client side that faces
backends), and the logic that ties them together: the connection pool, load
balancing, health checking, admission control and abuse limits.

The library performs no I/O. Octets go in, octets and effects come out; sockets,
timers and locks are in `app/`.

| module | what it holds |
| --- | --- |
| `octets`, `text` | byte buffers and the little text the protocol needs |
| `frame` | octets to typed frames and back (RFC 9113 §4, §6) |
| `hpack` | header compression (RFC 7541) |
| `stream`, `flow`, `sched` | stream states, windows, the send scheduler |
| `conn` | SETTINGS, error codes, and one client connection |
| `upstream` | one backend connection |
| `service` | requests, responses, and the built-in responder |
| `lb`, `roster`, `health`, `guard` | which backend, in what health, and when to stop listening |
| `pool`, `proxy` | coalescing, and the request path |
| `backend` | the little that the test backend decides |

Contracts are stated over models: each engine has a mathematical state
(`ConnModel`, `UpModel`, ...) whose steps are spec functions, and every executable
function is proved to take exactly that step. What the steps keep, however they
are interleaved, is stated as proof functions beside them (`conn::laws`,
`conn::wire`, `upstream::laws`, `upstream::bridge`, `upstream::wire`, `proxy::laws`,
and at the end of the other modules).
