# rosbag2_storage_rrd

The core of a rosbag2 storage plugin that records bags as Rerun `.rrd` files and plays them
back, written in Verus.

- `src/` is the library. What a recording keeps of each message, when buffered rows are
  flushed, how a recording is opened, in which order its messages come back, and how a decoded
  message is written back as CDR: every function states what it does in its contract, and
  Verus proves it.
- `app/` is the plugin's C interface: the clock, the file, the Rerun streams, the decoders.
- `tests/` runs the library with the crates it is linked to.

## Modules

| Module | What it holds |
| --- | --- |
| `config` | Presets, the storage config file, and what they resolve to |
| `writer`, `record`, `pipeline` | From messages to chunks: topics, the flush policy, buffered rows |
| `lenses` | The ROS 2 lenses and what they forward |
| `definitions` | Message definitions, and telling apart those the parser cannot take |
| `chunks`, `blobs`, `structs`, `columns` | The columns a chunk is made of, and reading them |
| `statics` | What a topic is, as static data on its entity |
| `index`, `opening` | The footer's index, and what a bag says about itself |
| `reader`, `playback` | The merge that plays a bag back, and its model |
| `replay`, `cdr` | Decoded messages written back as CDR |
| `text`, `error`, `logging` | Texts, the error slot, and log lines |

## What is proved of the whole

- `laws` (with an index) and `scan` (without one): a pass hands out every message of the
  topics asked for once, by receive time and, where that is shared, in the order of writing;
  backwards it is the exact mirror; a seek leaves what follows; a changed filter goes on after
  the last message, wherever the pass had got to. This is proved of a file that is as its index
  or a scan of it says, and whose rows can be read.
- `roundtrip`: what a topic holds is what flushing it yields, and its messages stay replayable
  with lenses or without. A whole pass over a bag, closed or cut off, gives back every message
  that was flushed exactly once, and one whose bytes were kept as exactly those bytes. A flush
  leaves nothing behind.
- `counting`: the number of messages, of the bag and of each topic, and the time range are those
  of the messages a pass hands out. A bag of nothing but what lenses derived counts none.
- `reencoding`: messages of one type that are written back alike hold the same values.
- `statics`: what was recorded of a topic is read back. `pipeline`: a topic holds every message
  in some form, unless dropping it was asked for. `record`: a write with its flush leaves a topic
  below its limits. `writer`: rows on a quiet topic wait for less than twice the limit.

What lenses derive is up to the crate that does it.

Calls into outside crates go through small wrappers marked `external_body`. What a wrapper
says of the function it calls is believed, not proved; its doc comment tells what that is.
