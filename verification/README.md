# graph_engine

A distributed, read-only query engine for property graphs. Nodes and edges are
rows of tables; each partition node keeps an index of the part of the graph it
owns; a coordinator plans queries and asks the partition nodes step by step.

    MATCH (p:Person {name: "Ann"})-[:KNOWS*1..2]->(q:Person)
    WHERE NOT EXISTS { MATCH (p)-[:BLOCKS]->(q) }
    RETURN q.name ORDER BY q.name LIMIT 10

`src/` is the library, verified with Verus:

| module | what it holds |
|---|---|
| `schema` | the schema language, its parser, partitioning, what may change |
| `dsl` | the query language, its parser and the check against a schema |
| `storage` | rows and column batches, names of tables |
| `index` | the index of one partition, its builder, generations of it |
| `query` | plans, their execution on one partition and on many, filters |
| `cluster` | which replica serves which partition, discovery, rebalancing |
| `wire` | what travels between processes |
| `coordinator`, `partition_node`, `viewer` | the rules of the three servers |
| `maps`, `sorting`, `text`, `values`, `environment` | what the others share |

The proof functions named `law_...` state what holds of the library as a whole.
`query/matches.rs` says which rows a query means in a graph, with no word of
plans, indexes or partitions, and proves that a cluster answers with exactly
these rows, as long as the property that a query starts from is indexed. On the
way there, `query/meaning.rs` says which rows the steps of a plan hold of, and
`query/whole_plan.rs` proves that the number of partitions makes no difference,
for replicas that answer from the index of their partition.
`coordinator/serving.rs` proves that replicas asked over the wire do.

What is believed without proof is marked `#[verifier::external_body]`: the hash
of `xxhash_rust`, timestamps read by `chrono`, the shared pointer of
`arc_swap`, and `str::to_lowercase` and the debug text of a string of `std`.

`app/` is the programs around the library: servers, client, storage, discovery
and metrics. `tests/` runs the library on concrete graphs.
