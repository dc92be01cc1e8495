# s5_groups

Shared storage for groups of S5 nodes, verified with Verus.

A group is identified by an Ed25519 key. Its state (members and shared content roots) is a CBOR
blob in the S5 registry, signed with the group's secret key. A state of more than 1024 bytes is
stored as a blob of its own, to which the registry entry refers by hash. Who holds the secret key
can write; who holds the public key can read. Invites carry either, as base64url text.

## Layout

- `src/` is the library. It does no input or output: what files, the registry and other nodes
  hold is handed in as plain values, and what is to be written, sent or printed is handed out.
  - `types`, `invite`, `state`: group state, invites, signed registry entries
  - `cbor`, `codec`, `sorted_map`, `order`: CBOR items, how values are laid out in them, maps with
    one order of their entries
  - `text`, `peer`: hexadecimal, base64url and decimal text; peer addresses
  - `local`: the files in which a node keeps its groups
  - `tree`, `walk`: paths, directory trees, and walks that fetch or export each directory once
  - `fallback`, `pin`, `commands`: sources that are tried in order, pinning and mounting, and the
    group commands of a node
  - `config`: a peer's access to blobs
- `app/` is the program around it: files, registries, blob stores, the network. It needs the
  crates of an S5 node.
- `tests/` are the library's tests.

What calls into other crates is believed, not proved: the functions marked
`#[verifier::external_body]` say in their doc comments which function they call and what they
claim of it.
