# tgapi

The verified core of a Telegram API server, written in Verus.

- `src/tl*.rs`: a parser for TL schema files (`.tl`): comments, the
  `---types---` / `---functions---` sections, definitions with their
  identifiers (stated or computed as the CRC-32 of the normalized text),
  parameters, flags and generic types. Each step is specified over
  `Seq<char>` and proved.
- `src/chat.rs`: the chat server's session registry (each connection takes
  the smallest free identifier below `u16::MAX`, which the server keeps for
  its own messages, or is refused when none is left), `ChatRegistry`, which
  keeps every session under its own identifier whatever calls reached it,
  the routing of a message to every session
  but its sender, and the admission check of new connections.
- `src/handler/`: the API method handlers.
- `src/text.rs`: the character-sequence primitives the parser is built on.
- `app/`: the program around the library: a Tokio actor that runs the chat
  server, a TCP listener whose sessions exchange lines, and the relay of
  standard input as server messages.
