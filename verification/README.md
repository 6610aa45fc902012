# quickwit

Query rewriting and root-search logic of a distributed search engine, written
in Verus and verified.

- `src/wildcard.rs`: wildcard patterns (`*`, `?`, `\`) to regexes; the literal
  runs of a regex, read off its syntax tree, and their normalization.
- `src/query_ast.rs`: the query AST and its abstract view.
- `src/regex_merge.rs`: merging of regex alternatives by field inside boolean
  unions, with the proofs that merging twice changes nothing and that
  reordering a union's clauses across fields changes nothing.
- `src/wildcard_query.rs`: the Elasticsearch `wildcard` query.
- `src/root.rs`: the decisions of a distributed root search (jobs, merge of
  partial hits, paging, fetch requests).
- `src/grpc.rs`: search errors as gRPC statuses.
- `src/text.rs`, `src/vec_util.rs`: helpers on strings and vectors.
- `app/`: what Verus does not check: JSON deserialization, the tokenizers,
  the asynchronous root search, the gRPC handlers.
