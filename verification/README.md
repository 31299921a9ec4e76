# tonic_xds

The client side of xDS load balancing, verified with Verus.

* `src/` is the library. Its modules decide what to do; they hold no sockets,
  tasks or timers.
  * `cascade`: the LDS -> RDS -> CDS -> EDS cascade as a state machine that
    answers each event with a list of actions.
  * `registry`, `cluster_sync`: which clusters have a client.
  * `lb`, `error`: which client a request goes to, and what a caller is told
    when there is none.
  * `endpoints`, `backoff`: from snapshots of endpoints to changes for a load
    balancer, and how long to wait between attempts to connect.
  * `cascade_laws`, `endpoint_laws`, `world`: what holds of all of this
    together, above all that a routed request finds a client.
  * `resource`, `address`, `keyed`, `numbering`, `watchers`: the data.
* `app/` drives the library: Tower services, Tokio tasks, streams and timers.
* `tests/` runs the library on concrete values.
