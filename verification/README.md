# imap-mcp-rs

An MCP server that lets a language model read, search and tidy IMAP mailboxes and
prepare drafts.

`src/` is the verified library: what the server decides and computes, as functions
on plain values whose contracts Verus proves.

- `config`, `oauth2`, `reauth`, `token_state`: accounts, the token service, the
  authorization flow of the browser, and the store of refresh tokens.
- `imap_client`: the session of one account as a state machine, and the plans of
  its requests: folders, listings, conversations, moves and deletions.
- `email`, `mail`, `html`, `divergence`: reading a message and judging its parts.
- `tools`: what each tool answers, and what it refuses.
- `text`, `time`, `json`, `report`: the ground that the rest stands on.

The mail parser, the mail builder, the HTML cleaner, the calendar and the digests
are outside crates. Each call of one stands in a small function whose contract says
what is believed of it.

`app/` is the program around the library: the MCP server, the network, the files
and the command line. `tests/` runs the library with the real outside crates.
