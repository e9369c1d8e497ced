# selmem

Selective reconstructive memory for an LLM entity: a book of lived hours
(traces), their sealed verbatim archive, identity axioms built on them, and
the night passes that reshape the book.

`src/` is verified with Verus. It holds the shape of the book and every rule
that does not read an affect number:

- `model`, `store`: records, the book, its well-formedness (unique ids,
  symmetric merge edges), writes and lookups.
- `lineage`, `query`, `retrieve`: the lineage of a marked hour (least closed
  set), living axioms, waiting hours, recall biases of the probes.
- `night`, `weather`, `merge`, `ladder`, `evidence`: what the night passes do
  to the shape of the book (which passes a night runs, release, revival,
  fusion, support growth, which schema mints or grows an axiom).
- `text`, `order`, `speech`, `markers`, `wire`, `feed`, `snapshot`, `report`:
  text rules, orderings, marker lexicons, JSON / query-string handling,
  routes, the event feed, tokens, the grounding strike count.
- `bench`, `probe`, `baseline`, `sitting`, `narrator`: benchmark conditions
  and the schedule of a pair, probe sides, the C1 / C3 baselines, sitting
  chunks, the rule narrator's schema choice.
- `organ`, with `retrieve::recall_select`, `night::end_night`,
  `wire::respond` and `wire::bind_llm`: what one call of the organ decides
  (a recall, a speech, the close of a night, a request, the narrator binding).

Traces and axioms are generic over their affect payload (`MemoryTrace<N>`,
`IdentityAxiom<W>`, `MemoryStore<N, W>`). `app/` instantiates them with the
floating-point numbers and holds the rules that read those numbers, the
process-wide id counter, the terminal and JSON reports, and `Organ`, which
drives a recall, a speech, a night, a request and a benchmark pair through
the library's decisions. Scoring a query, the outside narrator and the
floating-point night passes are handed to it by the caller.
