# tgdrive

A block device whose content lies in a Telegram channel, with its logic verified by
[Verus](https://github.com/verus-lang/verus).

The device is served over NBD. It cuts its content into objects of a fixed size. Writes go to
a local cache and make objects dirty; a flush uploads the dirty objects, commits a manifest
that names them, and publishes a superblock that leads to the manifest. Reads come from the
cache or, by message number, from the channel. The local index is a cache too: a new machine
recovers it from the channel.

## Layout

`src/` is the library. It does no input or output: a request is a state machine that asks for
outside work, one action at a time, and goes on with the reply.

| module | what it decides |
| --- | --- |
| `envelope`, `digest`, `wire` | the stored form of an object |
| `manifest`, `superblock` | the manifest, its tree form, and the text that leads to it |
| `block` | where a byte of the device lies |
| `cache`, `store`, `index` | the local index and its row operations |
| `device`, `requests` | reading, writing and flushing |
| `commit`, `recovery` | committing a manifest; finding, fetching and rolling back |
| `nbd`, `nbd_server` | the NBD protocol |
| `telegram`, `session` | rules for the use of the channel |
| `config`, `commands`, `envfile` | settings and what the commands compute |
| `backend`, `clock`, `text` | messages in memory, the clock, text |

The modules that end in `_laws` state what holds of the library as a whole, such as that a
read returns what was written, that a flush makes content durable, that a committed manifest
is recovered, that deleting garbage takes no content away, and that the backend of an NBD
export is only asked within its bounds.

`app/` is the program around it: the command line, the SQLite tables, the files, the sockets,
JSON, and the Telegram client.

`tests/` runs the library on concrete values.

## Trust

A few functions call other crates and are believed rather than proved: SHA-256 (`sha2`),
hexadecimal text (`hex`), the clock and its text (`time`), random identifiers (`uuid`), lossy
text (`std`), and dialog numbers (`grammers-session`). Each has a comment that says what is
claimed of it.
