# falcon_bms_callbacker

Invoke Falcon BMS callbacks by sending their names as UDP datagrams.

- `src/` is the verified library (Verus): reading BMS key files
  (`keyfile`, `keys`, `text`), the keystrokes that strike a callback
  (`emulator`), and the decisions of the program's tasks: what a datagram
  asks for (`server`), what is done with a message (`sender`), when the key
  file must be read again (`watcher`), and the settings (`config`).
- `app/` is the Windows program around it: configuration loading, the UDP
  socket, the simulator's shared memory and key file, and `SendInput`.
- `tests/` runs the library on concrete inputs.
