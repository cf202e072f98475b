# zenoh_peer

The rules of a peer in a zenoh network, verified with Verus.

- `token` routes liveliness tokens between the faces of the node: what is declared where, what
  ends where, and how interests are answered. `tables`, `dict` and `declare` hold what it works
  on, and `token_laws` states what holds of the rules as a whole.
- `tcp` turns settings into the parameters of TCP links and reads them back. `params` and
  `decimal` are the text forms underneath.
- `runtime` decides how a node starts, what it does with the messages of its sessions and how its
  transports are closed. `pid` reads and writes the identifiers of nodes.

Where a hash map would be walked in an order of its own choosing, `dict` walks in the order in
which the keys came, so that every function has one outcome.

`app/` runs the rules: locks, tasks, logging and the wire.
