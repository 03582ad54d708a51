# rust_qotd_server

A quote-of-the-day server (RFC 865, TCP port 17) whose request handling is
verified with Verus.

- `src/` is the verified library:
  - `text` — Unicode white space, trimming, splitting at a separator, prefixes;
  - `quoted` — the quoted-argument syntax of admin commands;
  - `adm_commands` — admin commands and the reading of an admin request
    (`pw:"admin"|addquote:"A quote" "Its author"`);
  - `numbers` — decimal text of integers, written and read as `Display` and
    `str::parse` do;
  - `db_operations` — password check, what each command does, which quote is
    served and under which date a new quote is filed;
  - `server_handling` — telling admin requests from quote requests, the
    listening address and the worker pool size.
- `app/` is the program around it: the TCP server, the worker threads, the
  SQLite quote store and the `.env` settings.
- `tests/` exercises the library, and checks the quoted-argument reader
  against the `regex` crate on every short input over a small alphabet.
