# blockchain_node

A small proof-of-work blockchain node, verified with Verus.

`src/` is the verified library:

- `block` — blocks whose hash is SHA-256 of the parent hash, miner address,
  nonce and time; the difficulty is the number of zero bytes that end the
  hash; the 80-byte serialized form and its reading back.
- `blockchain` — the block store: the database image (serialized blocks back
  to back) with an index from hash to position and height, loading an image,
  adding, getting, following the main chain, and the difficulty target by
  height. `blockchain::block` and `blockchain::memory_blockchain` hold the
  variant whose blocks carry their difficulty, kept in memory.
- `networked_message` — the peer messages and their wire encoding.
- `node` — what the node does with each event: messages from peers, mined
  blocks, connections opened and closed.
- `miner` — the miner's states and its search step.
- `networking` — the table of open connections and which of them a message
  goes to.
- `terminal_input` — the command line typed at the terminal.
- `crypto` — the calls into `sha2`, `ed25519-dalek` and `rand`, with the
  contracts the library relies on.
- `keyed_map`, `byte_util` — a small map with distinct keys, and byte helpers.

`app/` is the program around it: arguments, the database file, sockets and
connection threads, the miner thread, the terminal and printing.

## Protocol choices

- Message types on the wire: 0 `Ping`, 1 `Pong`, 2 `Block`, 3 `Request`,
  4 `RequestChild`, 5 `Peers`, 6 `Challenge`, 7 `ChallengeResponse`.
- A `Peers` message lists each peer with its public key: the address (type
  byte 0 and four bytes, or 1 and sixteen, then the port, little-endian),
  then the 32 key bytes. A node sends the peers that have answered its
  challenge. A listed peer counts as known when a stored peer has its
  address, or a stored peer has shown its public key; the others are
  connected to.
- A block on the wire carries a difficulty byte after the nonce. A received
  block's difficulty is always computed from its hash, so that byte is read
  past.
- `ToMiner::Start` and `ToMiner::Reset` carry only the block to mine on; the
  miner's target is the fixed difficulty 1.
- `get_child` finds a main-chain child by following parents down from the
  top block, for at most as many steps as there are stored blocks.

## Maps

The block index (keyed by 32-byte hashes) and the peer table (keyed by peer
addresses) are `KeyedMap`s, a small map verified here. vstd's `HashMap`
specification was not used for them: it holds only for key types whose
hashing vstd models (`obeys_key_model`, given for integers and `bool`), and
for arrays or a type of this crate that property could only be assumed,
which this crate does not do.
