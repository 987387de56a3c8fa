# udpcast

One sender, any number of receivers: file transfer over UDP, by unicast,
broadcast or multicast, with retransmission, forward error correction and late
joining.

`src/` is the protocol, as a library without I/O, verified with Verus. Time,
packets and the state of sockets come in as plain values, and packets to send
come out. `app/` holds the `udp-sender` and `udp-receiver` programs around it:
options, sockets, files, threads and clocks. `tests/` runs the library.

| modules | |
|---|---|
| `wire`, `protocol` | messages and their layout |
| `gf`, `matrix`, `cauchy`, `fec` | the field of 256 elements and the erasure code |
| `bitmap`, `produconsum`, `fifo`, `diskio` | sets of numbers, the ring and its accounts, the disk's side of it |
| `participants`, `answers`, `negotiate` | who takes part, what they answer, when a transfer begins |
| `sendslice`, `senddata`, `netsender`, `outgoing` | the sender |
| `recvslice`, `incoming`, `receivedata`, `receiver` | the receiver |
| `delivery`, `transfer`, `cast` | what a transfer promises as a whole |
| `sender`, `socklib`, `addr`, `text`, `rate`, `statistics`, `process`, `util` | options, addresses, pace and figures |

Functions whose names begin with `law_` state what holds across functions. The
main ones:

- `cast::law_receivers_get_the_file`: whatever packets are lost, repeated or out of
  order, with several slices in flight, parity and questions mixed, what a receiver
  wrote and has ready for its disk is at any time the front of the file that the
  sender read.
- `transfer::law_file_arrives_whole`: once each block of each slice arrived, the
  whole file is there. A block counts as arrived when there was memory for its
  slice.
- `transfer::law_transfer_ends` and `law_incomplete_file_is_never_ended`: the writer
  is told of the end when every slice before it was handed over, and never before.
- `outgoing::law_file_is_sent_whole`: a slice in flight keeps, in the sender's ring,
  the bytes that it was begun with, until every participant has it and all slices
  before it.
- `fec::law_lost_blocks_recovered`: as many parity blocks as there are lost blocks
  bring these back.
