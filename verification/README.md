# ngx_balancer_rs

Load balancing for nginx's HTTP upstreams, with the policies verified by Verus.
A `balancer_rs <policy>;` directive in an `upstream { … }` block chooses one of:

| Policy       | Behavior |
| ------------ | -------- |
| `least_conn` | The available peer with the fewest connections, weighted. Ties are broken by weighted round-robin; backup servers come after the primary ones; `down`, `max_fails`, `fail_timeout` and `max_conns` are honored. |
| `ewma`       | Of two random available peers, the one whose moving average of round-trip times is lower. The average decays with a time constant of ten seconds. Peers that turn up later start from the mean of the others. |

`balancer_rs` must come before the `server` lines that it governs. The variable
`$balancer_ewma_score` holds the score of the peer that `ewma` picked.

## Layout

- `src/` is the verified library. It works on plain values: peer lists, the
  state of a request, slot tables.
  - `peer.rs`, `tried.rs`: what every policy shares.
  - `least_conn.rs`, and `least_conn/` for what holds of it as a whole.
  - `ewma.rs` and `ewma/`: the slot tables, the pick, the callbacks, set-up.
  - `config.rs`: the directive.
- `tests/` runs the library on concrete values.
- `app/` is the nginx module: it locks nginx's lists, converts them to the
  library's values and back, works out the averages in floating point, and hands
  out memory and random numbers.
