# dns_forwarder

A small DNS forwarder. It answers UDP requests on 127.0.0.1:2053 by
forwarding each question to an upstream resolver on 127.0.0.1:5354 and
sending back the answers it gets.

- `src/wire.rs`: big-endian encodings and byte-buffer helpers.
- `src/message.rs`: header, questions, answers and messages; how they are
  written to bytes and read back, with the laws that relate the two.
- `src/server.rs`: the server address and the decisions taken on a request
  (reply skeleton, upstream query per question, collected answers).
- `app/main.rs`: the socket loop and command-line parsing.

The library is verified with Verus; `app/` is plain Rust around it.
