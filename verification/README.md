# porthannis

A TCP port forwarding manager. The library in `src/` holds its logic, verified
with Verus; `app/` is the command line and web server around it.

- `models`, `api`, `error`: forwarding entries, requests and their checks, errors.
- `config`: the entries of a configuration file and their create, update, delete.
- `manager`: which entries are being forwarded, and what starting, stopping,
  updating and deleting them calls for.
- `logger`, `forwarder`: the per-entry log with its rotating segments, the lines it
  writes and reads back, and the events of a forwarded connection.
- `server`: the stand-alone web server's entries (text ids), logger and proxy registry.
- `daemon`: the rule daemon's control token, and the step that answers each control
  command: status, stop, reload and unknown commands.
- `text`, `ids`, `paths`, `clock`: characters and strings, UUID text, paths, time.

Reading and writing files, sockets and the HTTP service live in `app/`: it reads
the addresses of an entry before asking the manager to start it, and reports each
log rotation and each line written back to the logger, which counts the sizes.
