# rdns_resolver

Reverse DNS (PTR) lookups over UDP.

- `src/` is the verified library: `packet` builds the PTR query for an
  address's text (`build_packet`) and cuts answers out of replies
  (`answer_section`, `answer_rdata`); `name` decodes length-prefixed names
  (`parse_answer`, `parse_dns_name`) and states the laws that tie encoding
  and decoding together; `text` holds the UTF-8 decoding calls; `error` the
  error type.
- `app/` is the program around it: sockets (socket2), sending and receiving,
  and `lookup`, which runs a whole query against 8.8.8.8.
- `tests/` exercises the library on concrete packets.
