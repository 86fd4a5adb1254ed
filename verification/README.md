# Pickleback

A way to multiplex and coalesce messages over an unreliable stream of datagrams, for game netcode,
with the logic verified by Verus.

It is expected to be hooked up to UDP sockets; there is no networking in the library itself.

## Features

- Coalesces multiple small messages into packets.
- Transparently fragments and reassembles messages too large for one packet.
- Multiple virtual channels for sending and receiving messages, reliable ones among them.
- Sending a message gives an id by which it is acked, even on unreliable channels.
- A handshake between a client and a server, with timeouts and disconnects.
- A pool of buffers for messages and packets.
- A simulator of bad links that drops, duplicates and reorders packets.

## Layout

- `src/` is the verified library.
  - `wire`, `cursor`: numbers and bytes.
  - `sequence_buffer`, `buffer_pool`, `small_map`: the containers.
  - `protocol/message`, `protocol/ack_header`, `protocol/packets`, `packet`: the formats.
  - `channel`, `dispatcher`, `message_reassembler`, `received_message`: messages on their way out
    and in.
  - `endpoint` is the model of one end of a link, and `pickleback` the code that it describes.
  - `client` and `server` put a handshake in front of it; `protocol/client` and `protocol/server`
    are a simpler pair that does not track the packets of the handshake.
  - `delivery`, `acking` and `handshake` state what holds between the two ends.
  - `reliable/`: a smaller layer that acks packets and knows nothing of messages.
  - `jitter_pipe` and `test_utils/`: the simulator and two test harnesses.
- `tests/` runs it.
- `app/` is what a program needs around it: socket addresses, estimates of rtt and packet loss in
  floating point, visitors and readers, logging, a plugin for bevy.

## Time

Time is counted in whole nanoseconds, as an `i64`. It is held at the ends of the range.

## What is not proved

The contracts of the outside functions that the library calls are taken on trust: those of
`byteorder` (in `wire`), `smallmap` (in `small_map`), `bytes` (in `reliable/buffers`), `rand` (in
`entropy`), and of `Vec::capacity` (in `buffer_pool`).
