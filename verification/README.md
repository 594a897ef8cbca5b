# chainhook_hord

Storage and traversal of compacted bitcoin blocks, for tracing inscriptions
back to the satoshi, and the coinbase, that they were made on. The library is
written and proved in Verus.

- `block`, `block_format`: compacted blocks and the bytes they are stored in.
- `lazy_block`, `lazy_format`: blocks that are decoded one transaction at a time.
- `block_source`, `cbor`, `hex_codec`: where compacted blocks come from.
- `ord`: block subsidies and satoshi numbers.
- `traversal`, `traversal_laws`: tracing a satoshi, one block at a time.
- `blocks_db`, `inscriptions`, `inscription_queries`, `hord_db`: what is
  written to the two databases, what is asked of them, what the answers mean.
- `ingestion`, `ingestion_laws`: filling the databases with blocks that are
  downloaded out of order.
- `config`: the observer's configuration.
- `wire`, `text`: big-endian numbers, decimal notation, text cut at byte positions.

The library does no input or output. Functions that stand for work on a
database take what was read and give back what is to be written; `app/` runs
them against files, databases and a bitcoin node. The functions named `law_..`
are theorems about the library as a whole. Where a function is only defined on
some inputs, its `try_..` variant says for every input whether it is defined.
