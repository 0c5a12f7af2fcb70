# jegrep

The decisions of a semantic grep's model client, verified with Verus.

- `src/provider.rs`, `src/failover.rs`: the chain of providers and the order in
  which they are tried.
- `src/question.rs`, `src/chunk.rs`, `src/request.rs`: questions in words, their
  cut into requests, and the requests.
- `src/retry.rs`: when a request is sent again, and after which wait.
- `src/answer.rs`, `src/merge.rs`: replies read and merged into one response.
- `src/client.rs`, `src/options.rs`: settings.
- `src/sorted.rs`, `src/order.rs`, `src/text.rs`, `src/number.rs`,
  `src/score.rs`, `src/json.rs`: the values that these work on.
- `src/laws.rs`, `src/call.rs`: what holds across these parts, and of a whole call.
- `app/`: the command line, the environment, and HTTP.
