# llm-wiki

Indexes a tree of Markdown notes for retrieval and serves it over MCP.

- `src/` is the verified library (Verus). It holds the chunker
  (`markdown`), the text primitives it rests on (`text`), Unix path rules
  (`paths`), SHA-256 in hex (`hash`), the incremental reindex plan
  (`indexer`), hit ranking (`search`), path checks of the service
  (`service`), the watch loop's decisions (`watch`) and the data types.
  Each public function states what it returns over `Seq`-level specs;
  laws such as the stability of reindexing (`indexer::law_reindex_is_stable`)
  are proof functions next to the code they speak of.
- `app/` is the program around it: configuration, directory walking, file
  reads, the SQLite store, embeddings, the MCP server and the command line.
- `tests/` runs the library against concrete inputs, and against `std`'s own
  behaviour where the library restates it (whitespace, `lines`, `trim`,
  path components).
