# bliss-guidance-lastfm

A provider addon for the `bliss-playlist-optimizer` guidance SPI. It takes in
`resolved-lastfm-evidence-v1` artifacts and returns Last.fm guidance for local
candidates; identities that are not resolved to a local candidate are ignored. It
does not contact Last.fm itself.

A preparation takes the first `resolved-lastfm-evidence-v1` artifact that the
request lists, and checks it against the digest that comes with it. Where the
request lists none, the evidence can be named by its path in the options; there is
no digest to check then.

Prepare options:

```json
{"artifact_path":"/path/to/semantic-evidence.json"}
```

Its provider ID is `lastfm-guidance`. It speaks versioned JSON lines on stdin and
stdout.

## Layout

- `src/` is the library, verified with Verus.
  - `provider`: taking evidence in, scoring candidates
  - `relations`: the strongest relation of each source to each candidate
  - `artists`: which artists stand behind a track
  - `service`: requests, responses, the command line
  - `protocol`, `evidence`: the messages and the evidence
  - `binary64`: scores, as IEEE 754 numbers on integers
  - `names`, `text`, `digest`: ordered names, text, SHA-256
  - `laws`: what holds of guidance as a whole
- `tests/` runs the library.
- `app/` is the program: it reads and writes lines, reads the artifact, and
  decodes it.
