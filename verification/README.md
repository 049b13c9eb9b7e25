# dynamo-serving

Verified decision logic of a model-serving control plane, written in Verus.

- `src/admission/`: session-aware admission control. Requests of one session
  run one at a time; each session's program is kept resident, paused under KV
  pressure and resumed when capacity returns. The policy state has a
  mathematical model (`model.rs`, `rebalance.rs`); every operation of
  `SessionAwareAdmissionControl` is proved to follow it, and `laws.rs` proves
  properties that span operations. `capacity.rs` derives worker KV capacities
  from worker configurations; `registration.rs` decides which policy classes
  get the policy.
- `src/gateway/`: the inference-gateway picker: peer discovery from
  EndpointSlices, pod readiness and selection, InferencePool parsing, the
  selector's worker catalog, the routing plan of a request and the
  bookings of in-flight requests.
- `src/frontend/`: the read-only frontend context offered to route extensions
  and the checks on extension routes.
- `src/mocker/`: the mock engine server's configuration checks and the
  response streams of its live requests.
- `src/text.rs`: string helpers with contracts over `Seq<char>`.

`app/` holds the unverified runtime around the library: floating-point
configuration, clocks, Kubernetes object conversion and watch loops.
