# http1_stream

HTTP/1.x message framing across the events of TLS connections, verified with Verus.

`Http1Tracker::feed` takes the bytes of one write or read on a connection and hands back the
messages that they complete. Each connection and direction has a buffer of its own; chunked bodies
are decoded; connections that switch to another protocol are handed back.

- `bytes`: searching, splitting, numbers in byte strings
- `head`: what a start line and header fields say, and how the end of a message is known from them
- `stream`: reading one direction of a connection, part by part
- `streams`, `connections`: what is kept of all streams and connections
- `message`: how the bytes of a stream become messages
- `tracker`: `Http1Tracker`
- `splitting`, `written`: why the places where bytes are split into events do not matter, and the
  bytes that stand for a message
- `laws`: what holds over several events; `law_message_in_pieces` is the central statement, and
  `law_message_behind_others` adds messages that begin in the event that ends the one before

A request is taken for HTTP/1.x where the last word of its request line names HTTP/1.x, or where the
line has not come whole.

A body above `MAX_HTTP1_MESSAGE_BYTES` is never handed out: the message is dropped whole, whether
its length is announced, comes in chunks, or runs until the connection closes.
