# ebpf-monitor

A file-access monitor for Android kernels: a raw-tracepoint program records
file syscalls whose path basename is watched, and a daemon stores the events
in an Automerge document and answers a control socket.

`src/` is the verified library (Verus): the event ABI shared with the kernel
program, the syscall catalog and configuration validation, the decisions the
kernel program takes at syscall entry and exit, the hash-chained event log,
the control-socket protocol, the settings format and the small parsers the
daemon needs. `app/` is the daemon and its `ctl` client: sockets, files,
processes, the BPF loader and logging, calling the library for every
decision. `tests/` exercises the library.
