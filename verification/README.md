# udemyget

The verified core of a terminal program that downloads the Udemy courses one owns, and the
program around it.

`src/` holds every decision: what is asked of the Udemy API and how its answers are read,
which source of a lecture is tried, how HLS playlists lead to segments and keys, how segments
are decrypted and put in order, how files are cut into chunks, when a request is repeated,
where files lie, what keys and messages do, and what is shown. Each function states what it
does in `requires` and `ensures`; the functions named `law_*` state what holds of several of
them together.

| Module | What it decides |
|--------|-----------------|
| `text`, `json`, `types` | text operations, JSON values, the data that is shared |
| `cookie`, `api` | request headers, the account, answers of the API |
| `hls`, `segment`, `crypto`, `ts` | playlists, keys, decryption, order of segments |
| `direct`, `retry`, `lecture` | files in chunks, repeated requests, choice of a source |
| `config`, `plan`, `groups` | paths, planned downloads, lists of courses and lectures |
| `queue` | which downloads are at work, and which wait |
| `app`, `keys`, `events`, `screen` | the state of the program, and what is shown of it |

`app/` performs what the core decides: the terminal, HTTP, files and background tasks.
`tests/` runs the core on concrete values, with the outside crates linked.
