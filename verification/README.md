# fuchsia

Verified building blocks of an operating system, written in Verus.

- `ndp`: neighbor discovery for IPv6 (RFC 4861) and stateless address autoconfiguration (RFC 4862)
  on a device: `handler` holds the operations, `model` says what they do, `safety` what always holds
  of a device, and `laws` what follows.
- `net`: addresses, tables and times.
- `lsm_tree`: the in-memory layer of a log-structured merge tree, a skip list that readers walk over
  while a writer changes it: `skip_list_layer` holds the list, and `laws` says what the changes of a
  writer mean for readers.
- `component_resolvers`: checks which components have a resolver with access to a protocol against
  an allowlist.
- `fxfs_server`, `lowpan`, `flash`, `emulator`: the decisions of a file system server, of a driver
  for low-power networks, of a tool that flashes targets and of a command.
- `math`, `text`, `random`: powers of two and logarithms, texts, random numbers.

`app/` holds the tasks, files, command lines and file formats around the library. `tests/` runs the
library.
