# cao_queue

A message queue server and its collections, verified with Verus.

`src/` is the library, every function of it proved against its contract:

- `spmcfifo`, `mpfifo`: bounded first-in first-out queues over power-of-two ring buffers;
  the view of a queue is the sequence of its items, oldest first.
- `bounded`: one bounded queue per producer.
- `bucket_allocator`: a chain of bump-allocated buckets for message payloads; the view of
  each bucket tracks the blocks that are handed out and not given back, and an allocation
  never shares a byte with one of them. `message` holds the messages that own their payload
  and those that live in an allocator.
- `table`, `message_map`: an open-addressing hash table keyed by a 32-bit hash of the
  message id, grown before it is 70% full.
- `atomic_option`: an optional value that is set at most once.
- `commands`, `exchange`, `client`: the commands of the protocol, the named queues of a
  server, and what each command of a client does to them; `client::command_post` states it
  for every command, and `client::law_clients_inv` that no queue ever gets two producers.
- `bench`: the decisions of a load-test consumer.

The operations take `&mut self`: each structure is verified as a sequential object, and the
server shares the exchange of queues behind a lock.

`app/` is the server (websockets, bincode on the wire), a client, the load test (`bench`)
and a demo (`demo`). It holds the wire copies of the library's types, with their serde derives.
