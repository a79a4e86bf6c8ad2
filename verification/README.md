# editor_host

The logic of a desktop editor host, verified with Verus: what its commands compute and
decide, apart from the reading, writing and drawing around them.

| module | what it holds |
| --- | --- |
| `text`, `utf8`, `utf16`, `pattern`, `paths`, `sort`, `civil`, `project` | texts and bytes, regular expressions, file extensions, stable sorting, the calendar, limits on files |
| `edit_ops`, `edit_laws` | aligning lines on a delimiter, toggling line comments |
| `encoding_ops`, `encoding_laws` | telling an encoding, decoding, encoding |
| `git_more`, `git_laws` | arguments for git, guards on revisions, reading the log |
| `doc_search`, `doc_collect`, `doc_replace`, `doc_laws` | searching and replacing in office documents and PDF |
| `bus` | requests from scripts to the web view, and their replies |
| `terminal` | sizes and sessions of terminals |

A module that ends in `_laws` states what holds of several functions together, such as
that a text which is written in an encoding is read back, or that aligning twice changes
nothing more.

`app/` is the host itself: it reads files, runs git, drives the document engines, the
automation socket and the terminals, and hands plain values to the library. It is not
verified. Where it calls a function with a precondition, it tests the condition first.

What the library takes on trust is marked `external_body`, `assume_specification` or
`uninterp`, with the outside function and the claim in the comment above it.
