# chatchain

A chat ledger node: users push messages into a node's mempool, a commit
moves them into the node's database, and nodes sync mempools and committed
messages with each other. A client spreads requests over the nodes.

`src/` is the verified library (Verus):

- `message` – chat messages, blocks, and the two keys that identify a message
  (sender, recipient and timestamp in the mempool, written unambiguously as
  `5:Alice3:Bob1619827200`; `timestamp-sender` in storage);
- `text` – decimal rendering of integers, used by those keys;
- `mempool` – the mempool, which refuses any message whose identity it has
  seen, also after a commit; its laws;
- `value_id` – block identifiers and their byte-wise order; its laws;
- `ledger` – the stable order by timestamp in which committed messages are
  served, and which messages of a peer a sync stores (`StoredKeys`,
  `select_new_messages`); their laws;
- `network` – node addresses, the testnet configuration, which peers a node
  syncs with and when;
- `sync` – the order of a sync round over the peers, and of the background
  round;
- `retry` – the retry and back-off policy for requests to peers;
- `failover` – the client's policy of trying nodes in order.

`app/` is the HTTP node and client around it (axum, reqwest, redb, tokio):
`main` runs a node, `main client` runs the client.
