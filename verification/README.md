# family_router

A home-router monitor: it watches the traffic of family devices on the bridge,
marks a device as watching (streaming) when it moves more than a threshold of
bytes in two consecutive ten-second intervals, takes points from its owner
while it does, and blocks the owner's devices in the firewall when the points
run out. A small web interface manages users and devices.

- `src/` is the verified library (Verus):
  - `text` – splitting text at single-byte separators, byte search, trimming;
  - `network` – reading IP and MAC addresses out of a DHCP lease file, the
    lookup of a MAC by IP, and the firewall rules that cut a host off;
  - `device_tracking` – reading captured Ethernet frames (through smoltcp)
    and the per-device throughput tracker;
  - `parsepacket` – source MAC and IP destination of a frame (through pnet);
  - `route_users`, `route_devices`, `models` – what the web handlers compute.
- `app/` is the program around it: the web server (actix-web, askama), the
  database (diesel/SQLite), the raw socket loop, the lease file and iptables.
- `tests/` exercises the library with the real outside crates linked.
