# rinha

Fraud scoring by nearest-neighbour search over quantized transaction vectors.

- `src/` is the verified library:
  - requests and payloads: `wire`, `payload`, `text`, `calendar`, `feature`;
  - the KD-tree index and its exact search: `kdtree`, `best`, `knn`, `knn_laws`, `index`;
  - the cluster blob, its reader and its builder: `header`, `blob`, `blob_build`, `blob_laws`;
  - choosing and scanning clusters: `ivf`, `scan`;
  - the neighbour graph, its builder and its search: `layer`, `topk`, `beam`, `select`, `order`, `levels`,
    `hnsw_build`, `edges`, `heap`, `hnsw`, `reach`;
  - decisions of the load balancer and the settings: `handoff`, `config`;
  - shared parts: `consts`, `bytes`, `distance`, `sort`, `rng`.
- `tests/` runs the library on concrete values.
- `app/` holds the programs around it: files, sockets, threads and floating-point arithmetic.

Proof functions whose names begin with `law_` state what holds of the library as a whole.
