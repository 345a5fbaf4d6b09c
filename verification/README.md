# deltasync

Synchronises large files to another machine by sending only the blocks that differ. The
file is divided into blocks of a fixed size; the receiving side sends the hash of each of
its blocks, and the sending side answers with the blocks whose hashes differ.

The rules of both sides are a library verified with Verus:

| Module         | What it holds                                                          |
|----------------|------------------------------------------------------------------------|
| `endian`       | words on the wire, big-endian                                          |
| `text`         | decoding, decimal numbers, trimming                                    |
| `common`       | status codes, strings and file blocks on the wire, in pieces           |
| `blocks`       | how a file is divided into blocks                                      |
| `hash_file`    | the hash of a block, and the workers that share out the blocks         |
| `sync`         | the rules of the channel that delivers results in order                |
| `server`       | the handshake, the destination and the exchange, seen by the server    |
| `client`       | the handshake and the exchange, seen by the client                     |
| `delta`        | what client and server achieve together                                |
| `stream`       | what workers and channel achieve together                              |
| `session`      | client and server at work while the destination changes                |
| `remote_start` | how to log in on a remote machine, and the commands to run there       |
| `cli`          | what the program makes of its arguments                                |
| `utils`        | absolute paths                                                         |

The library does no input or output. It is told what happened (bytes that came, a file
that was opened, a write that was done) and answers with what to do next. `app/` is the
program around it: connections, files, threads and the command line.

What is proved of single functions stands in their contracts. What relates several of them
is stated by the proof functions whose names begin with `law_`. Two of them say what it is
all for:

- `session::law_session_synchronises`: a session that comes to its end has made the
  destination equal to the source, whatever the order of events. It is stated of files of
  the same size, of which the source is not empty; of a connection that keeps the order of
  what is sent; of a session in which the client has compared all blocks and the server has
  written all that the client sent; and as long as the hash tells apart the blocks that
  differ. That the hashes compared are those of the destination as it was before is proved
  by `session::law_hashes_are_of_the_old_destination`.
- `delta::law_synchronised`: the same, with the bytes of the client arriving in any pieces,
  of an exchange in which the client got the hashes of all blocks of the destination, took
  all blocks of the source, and all bytes that it sent arrived.

Checksums, digests, hexadecimal text, random secrets and the cleaning of paths come from
the crates `crc32c`, `md-5`, `hex`, `rand` and `path-clean`. The contracts of the functions
that call them, and of two functions of the standard library, are believed without proof;
each of these functions says so in its documentation.

## Usage

```sh
deltasync --server -w 8 --secret "secure_secret"
deltasync -w 8 --secret "secure_secret" --ip <SERVER_IP> path/to/local/file /path/to/remote/file
```
