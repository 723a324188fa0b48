# lithograph

A typed semantic code graph and the deterministic analyses over it, written
in Verus. The functions of the library in `src/` carry contracts that Verus
proves, except five small trusted wrappers around outside code
(`String::push`, `str::to_lowercase`, `char::is_alphanumeric`,
`Path::extension`, and `blake3::hash`), whose contracts Verus takes as given.

## Layout

- `model`, `text`, `sorting`, `strmap`, `encoding`: the graph's nodes and
  relations, character-level string operations, stable sorting and
  de-duplication, string-keyed tables, and the byte encoding that
  fingerprints fragments.
- `builder`, `infra`, `decisions`, `dispatch`, `imports`, `definitions`,
  `clone_tokens`: the builder state (an id-ordered node table with numbered
  relations), the structural build pipeline, the facts that Dockerfiles,
  Compose files, workflows, and structured configuration contribute,
  decision traces for resolved relations, and the small rules the builder
  applies to names, paths, imports, and tokens. `GraphBuilder::build` takes
  each artifact's analyzer output (`infra::AnalyzerOutput`: a Dockerfile,
  Compose file, workflow, structured configuration file, Markdown document,
  or package manifest) as a plain value, applies it after the structural
  pass, and relates the package manifests last. Its contract fixes the node
  ids, the structural nodes, every relation, and what each output makes of
  the nodes it makes first.
- `markdown`: Markdown documents as documentation sections, references to
  the files their local links and path mentions name, and commands.
- `manifests`: package manifests (Cargo, `pyproject.toml`,
  `requirements.txt`, and any format read into a `PackageManifestAnalysis`)
  as local and external package nodes and their relations, each carrying
  the provenance of the manifest's format.
- `clones`: which symbols are near-clone candidates, their size bands, the
  in-band pairs of each language, the verdict on a pair from its exact
  token counts, the `SimilarTo` relations the verdicts record, and the
  identity of a candidate set; `candidates` builds the candidates from the
  graph's symbols and the texts of their files; `clone_tokens` gives the
  word tokens and the content hash of a function body.
- `index`: search, trace, architecture, package dependencies, and schema
  queries over a graph.
- `analytics`, `enrichment`, `health`, `communities`, `leiden`: degree
  metrics, the optional enrichment overlay, health findings, community
  scopes, and the deterministic local-moving community detection with its
  exact summaries.
- `fragment`: per-artifact fragments, their fingerprints, reassembly, and
  reconciliation.

Laws that relate several functions are public proof functions next to the
functions they speak of (for example `fragment::lemma_reassemble_partition`,
`health::lemma_report_ids_unique`, `communities::lemma_normalized_scope_laws`,
`leiden::lemma_weighted_rows_unique`, `index::lemma_schema_order_free`,
`index::lemma_schemas_agree`, `builder::lemma_builds_agree`,
`builder::lemma_package_declarations`, `clones::lemma_band_pairs_unique`,
and `fragment::lemma_canonical_reassembly`).

`app/` holds the floating-point analytics (PageRank, betweenness,
cohesion, conductance, Jaccard scores) built on the library's verified
counts. The analyzers that read source files, and the builder passes that
depend on their language registry and resolvers, are not part of this
crate.
