# practicas

Verified exercises in Verus.

- `src/brackets.rs`: a stack (`Pila`), a whitespace-skipping reader
  (`next_token`) and a check that parentheses and braces are balanced
  (`parentesis_equilibrados`).
- `src/search.rs`: binary search over a slice (`bin_search`) and the count of
  values whose opposite follows them once the slice is sorted (`count`).
- `src/chat.rs`: the state of a group chat server and how it answers each
  message (`ChatServer::handle_message`), with the state's invariant.
- `src/client.rs`: how the chat client frames the user's lines and reads the
  server's answers.
- `src/text.rs`, `src/sorting.rs`: the text and ordering notions the contracts
  use, and the calls into the standard library that the library relies on.
- `app/`: the server and client programs (`server`, `client`), which do the
  network and terminal I/O and print in colour.
