# llm_service

A command-line chat agent for a local model service, with its logic verified
by Verus.

- `src/` — the verified library:
  - `client.rs`: the chat messages, the request body and the reply.
  - `window.rs`: the sliding-window model of a short-term memory and its laws.
  - `short_term_context_deq.rs`: the memory kept in a `VecDeque`.
  - `short_term_context_treap.rs`: the memory kept in a treap ordered by
    insertion number, with heap-ordered random priorities (xorshift32).
  - `short_term_context.rs`: the memory kept in a search tree ordered by time
    stamp or by score key.
  - `dynamic_prompt.rs`: the message list sent to the model.
  - `run.rs`: what a typed line asks for, and the chat session (prompt and
    record of each exchange).
  - `utils.rs`, `clock.rs`: timing and clock readings.
- `app/` — the program: terminal I/O, the HTTP call (reqwest, tokio), the
  serde forms of the messages, and the floating-point performance report.
- `tests/` — tests of the library.
