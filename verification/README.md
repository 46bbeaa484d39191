# sharpdx

Data exchange with the Sharp PC-1500 and PC-1600 pocket computers: serial file
headers, the BCD number, Variables and Reserve Area codecs, the CE-1600F floppy
filesystem and its `.floppy.yaml` image container, content detection, and the rules
by which `get` and `put` turn device bytes into host files and back.

- `src/` is the library, written in Verus: every function carries a contract, and the
  laws that hold across functions (read back what was written, delete then list, the
  receiver's stop rule, and others) are public proof functions.
- `tests/` runs the library on concrete values.
- `app/` is the command-line program around it: argument handling, files, the serial
  port and the clock.
