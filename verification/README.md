# herdr

File transfers across the panes of a terminal multiplexer, in Kitty's OSC 5113 protocol, and what
the agents in its panes add up to. A verified library: every function states what it does, and
Verus proves it.

The library reads no files and does no I/O. It finds complete, bounded commands in streams of bytes
and decides where they go:

- `frame` reads and writes single frames; `scanner` finds them in what a pane emits, `extractor` in
  what the outer terminal sends, between keys, pastes and mouse reports.
- `server` pins each session to the runtime that began it and to the client in front, and hands its
  commands to that client. `client` pins each session of the outer terminal to its owner, and sends
  the terminal's answers back. `control` holds the messages between the two, `endpoint` the
  connections, `upkeep` what expires.
- `aggregate` says which state of the agents in a tab or a workspace asks for attention.
- `table`, `bytes` and `decimal` are what these are built from.

What holds of several calls together stands in the modules whose names end in `_laws`: that input
may be cut anywhere, that input in which no transfer frame is begun comes out as it went in, that
sessions never change hands, that what is retired stays retired, that bytes arrive as they were
sent.

Where a decision depends on the outcome of I/O, a function hands out what is to be done, and another
one takes the outcome. `app/` does the I/O: JSON, clocks, the outer terminal, runtimes and
connections.

What is not proved is in `codec` and in `bytes::text_from_utf8`: the wrappers around base64, JSON
and the standard library's UTF-8 check, each with what it is trusted for.
