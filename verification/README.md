# Wi-Fi manager

A small Wi-Fi manager for Linux. It scans for networks and joins them through `wpa_cli`,
run under `sudo`, and keeps passwords that worked in `~/password.wifi`.

- `src/` is the library: reading the output of `wpa_cli`, the credentials file, the course
  of an attempt to join a network, and the state of the user interface. It is verified with
  Verus.
- `app/` is the program around it: the window (eframe), processes, threads and files.
- `tests/` runs the library on examples.

## The credentials file

One entry per line: the SSID, a tab, the password. A line is split at its first tab, so a
password may hold tabs. White space around the SSID is dropped, and a line without a tab or
with a blank SSID is ignored. A line that is not valid UTF-8 holds no entry.

Saving an entry keeps all others and replaces an earlier one for the same SSID; white space
around the SSID does not count there either. Ignored lines are dropped, but lines that are
not valid UTF-8 stay as they are, behind the entries. A carriage return at the very end of a
password is lost, as part of the line ending. A file that is there but cannot be read is
not overwritten.

No line can hold a blank SSID, an SSID with a tab or a line feed in it, or a password with a
line feed in it. Such a pair is written all the same, such an SSID as it stands, and is read
back as another entry or as none; it may take the place of another network's password.

## Joining a network

`add_network`, `set_network` for the SSID and the credentials, `enable_network`,
`select_network`, then `status` every two seconds, fifteen times at most. A success is made
permanent with `save_config`. After a failure the new profile is removed and the network
that was in use before is selected again.
