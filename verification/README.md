# forensic-adb

A client of the Android Debug Bridge (adb). No command is run on a device unless
the caller asks for it.

- `src/` is the library: what a client says to the adb server and to a device,
  how it reads the answers, and what it decides on the way. It holds no socket
  and opens no file. Verus proves its functions against their contracts, but for
  the few that call other crates or std where Verus has no specification: their
  contracts are trusted, and each says in its comment what it claims. They are
  in `path` (unix_path), `shell` (regex), `device` (uuid), `response`, `text` and
  `wire` (std).
- `app/` is the asynchronous client around it, on tokio: it connects, reads and
  writes, and asks the library what comes next.
- `tests/` run the library on bytes as a server and a device send them.

| module     | what it holds                                               |
|------------|-------------------------------------------------------------|
| `wire`     | messages and lengths                                        |
| `response` | reading the answer to a request                             |
| `exchange` | conversations, as lists of what to send and to wait for     |
| `conversation` | holding them, and how they end                         |
| `host`     | the server, its devices, and how one is chosen              |
| `device`   | the requests that can be made of a device                   |
| `shell`    | shell commands, and running them as a package               |
| `sync`     | the file protocol, and listings of directories              |
| `pull`     | receiving a file                                            |
| `push`     | sending a file                                              |
| `walk`     | whole directories                                           |
| `tree`     | what holds of whole trees                                   |
| `path`     | paths on a device                                           |
| `storage`  | the storage in use                                          |
| `info`     | the properties of a device                                  |
| `text`, `numbers`, `error`, `adb` | what the others are written in      |
