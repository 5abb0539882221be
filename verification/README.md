# Local Lens

Search the photos of a folder by what is on them: file names, the text on them, what they
show, who is on them, and when they were taken. Everything stays on the machine.

The library under `src/` decides and computes, and is verified with Verus:

| module | what it is about |
| --- | --- |
| `query`, `calendar` | what a line of search text asks for |
| `query_laws`, `residue` | what holds of every line, and of a text that passages were taken out of |
| `search`, `ranking`, `names` | which records a query finds, in which order, on which page |
| `record`, `path` | what is known of a picture, and whether a query admits it |
| `people`, `face` | groups of faces, the names given to them, and the detections that are kept |
| `indexer`, `cache` | the course of a scan, and what it writes to the cache on disk |
| `thumbnail`, `media` | thumbnails, capture times, and the text read from pictures |
| `runtime`, `settings` | which models are loaded on which backend, and the settings |
| `text`, `number`, `score` | texts, numbers and scores |

Scores and vectors are floating-point numbers. The library holds them by their bit patterns
and orders them; computing them is left to the application.

`app/` is the desktop application around it: the window, the SQLite cache, the files, the
models and the OCR program. `tests/` runs the library on concrete values.
