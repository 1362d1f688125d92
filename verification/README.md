# dplane

The data plane of a software switch, as a verified library.

- `header`, `parse_result`: header layouts (bit-exact field positions) and
  what the parser found in a packet; field extraction and comparison.
- `radix_tree`, `avl_tree`, `table`: the match-action tables — a trie for
  longest-prefix keys, a height-balanced search tree for exact keys, and the
  table search that combines them with wildcards and priorities.
- `table_controller`, `cp_stream`, `controller`, `config`, `cmd`: the
  control plane side — decoding flow entry requests, answering control
  requests, building tables from the configuration and loading initial
  entries; `config` also reads the command line (getopts) and the YAML
  switch configuration (yaml-rust) into the switch settings.
- `hash`, `cache`, `tss`, `worker`: packet hashing, the two cache levels,
  the tuple space, and the per-packet decisions of the receive, cache,
  pipeline, single-core and transmit workers (`rx_step`, `cache_step`,
  `pipeline_step`, `single_core_step`, `count_tx`).
- `parser_api`, `pipeline_api`, `program`, `tx_conf`: what the parser and
  pipeline programs call back into, and the programs themselves.
- `memory`, `interface`, `udp`: small containers, the kernel-network port
  stubs, and the UDP header of the packet generator.

`app/` holds the program around the library: reading the configuration
files, the JSON data plane description, and the control-plane TCP server.
The worker loops need DPDK and a wasm runtime and are not part of it.
