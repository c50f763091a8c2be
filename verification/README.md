# PaperNet

PaperNet is a tabletop network-simulation classroom: the teacher's machine
generates routers, switches, PCs and taps, students each claim one device at
random, cable the devices together on their desks, and then walk frames
through the network hop by hop.

## Layout

- `src/` is the library, verified with Verus: addressing (IPv4, MAC),
  the classroom state machine (joining, claiming, releasing devices),
  the topology tables (links, MAC table, ARP table), reachability,
  chat and ping, the hop-by-hop frame simulation, restoring a classroom
  from storage, and the decisions the servers' socket loops make.
  `src/laws.rs` states properties that hold across operations.
- `tests/` exercises the library on concrete classrooms.
- `app/` is the program around it: the teacher's HTTP and WebSocket
  server with its SQLite store, and the standalone student client.
