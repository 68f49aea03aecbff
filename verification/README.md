# geyser_fanout

Fans the updates of a Solana validator out to many gRPC subscribers.

A validator reports statuses of slots, account images, transactions, entries and block metas, in
no particular order. The library numbers them, puts blocks together from their parts, completes
statuses that were never reported, keeps a window of slots for replays, batches messages for the
three commitments, and decides what each subscriber is told and when it is let go.

`src/` is the library, verified with Verus:

- `message`, `content`, `buffer`, `wire`, `encoder`, `decoding`, `parallel`: the updates, what
  they say, and their protobuf form;
- `message_id`, `slot_messages`, `dedup`, `ancestors`, `sweep`, `invalid`, `reconstruction`,
  `reconstruction_laws`, `run_laws`: blocks and statuses, slot by slot;
- `broadcast`, `broadcast_laws`, `dispatch`: batches, and the two pipelines that fill them;
- `client`, `client_loop`, `subscription`, `subscribe`, `access`, `status`, `block_meta`,
  `service`: subscribers and requests;
- `names`, `latency`, `clock`, `ordered`, `text`: what the rest needs.

`app/` is the service around it: channels, threads, tasks, sockets and metrics. The filters of
the subscribers and the generated protocol code are plugged in through a trait.

The contracts speak of views: of a slot (`SlotView`), of the reconstruction (`StateView`), of a
pipeline (`PipelineView`). What relates several functions is stated by public proof functions,
whose names begin with `lemma_`.
