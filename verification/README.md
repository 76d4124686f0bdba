# relaydrop

An encrypted file relay over raw TCP or WebSocket: a relay pairs two peers in a
room and passes frames between them, and one peer sends files and folders to the
other. File content is sealed with a key that the two peers derive from the code
they share. The relay is told a room name derived from the code, not the code, so
it does not know that key.

`src/` is the library, verified with Verus. It holds what the relay and its
clients decide and compute, as contracts over mathematical models:

- `crypto` - key derivation, sealed blobs, file digests
- `framed` - messages, their wire format, and the frames that carry them
- `transport` - frames on TCP and WebSocket, relay URLs
- `relay` - rooms, the relay's side of the handshake, the pipe
- `client` - codes, the printed receive command, the client's side of the handshake
- `manifest` - what is sent, under which path, in which order
- `paths` - paths as text, and which of them stay inside a directory
- `transfer` - the sender, the receiver, and what one gets from the other
- `text` - helpers over characters

Proof functions named `law_...` state what holds across several functions, such
as that a whole transfer delivers exactly what was sent.

`app/` is the program around the library: arguments, sockets, files, timers.
`tests/` holds the library's tests.
