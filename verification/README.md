# Yakking Yak

An end-to-end encrypted group chat: clients agree on keys with X25519, derive a chain of
AES-256-GCM keys per pair of users (a ratchet), and talk through a relay server that forwards
each message to the group it was sent to. The library is written in Verus; its functions carry
contracts that Verus proves.

## Layout

- `src/text.rs`, `src/codec.rs`: splitting and joining text, Base64, UTF-8 and decimal numbers.
- `src/crypto.rs`, `src/clock.rs`: the calls into the cryptography crates and the clock, each
  with the contract that the rest of the library relies on.
- `src/wire.rs`: addresses and messages of the plain protocol, and their text form.
- `src/cli/`: the terminal client: its key store, its commands and the messages it reads.
- `src/web/`: the browser client: its key store, its messages and the events of its page.
- `src/client/`: the client of the signed protocol: addresses that carry an ECDSA key, the
  ratchets, the key store, signed messages, what the desktop client sends on each of the
  user's actions, and what it keeps on disk.
- `src/all/`: addresses that carry a device id.
- `src/server.rs`: the relay's rooms: who is in which group, and who gets what.
- `tests/`: tests on concrete values, one file per part.
- `app/`: the terminal client's program (websocket, terminal), and the reading and writing of
  the desktop client's files.

## Main properties proved

- A secure text that one client encrypts for a user who trusts it reads, at that user, as the
  text (`cli::encrypter::lemma_secure_text_roundtrip`, `web::encrypter::lemma_web_secure_text_roundtrip`).
- The two ratchets of a trusted pair agree link by link (`client::ratchet::lemma_ratchet_roundtrip`,
  `client::store::lemma_store_channel`, `client::store::lemma_store_own_channel`).
- A signed message that one store writes reads back at any store as the same message
  (`client::serverhandlers::lemma_signed_roundtrip`), and a secure text reaches, through the
  server, the store it was meant for as the text (`client::delivery::lemma_secure_delivery`).
- Messages and addresses read back from their text form (`wire::lemma_wire_roundtrip`,
  `wire::lemma_sendable_roundtrip`, `client::utils::lemma_key_sendable_roundtrip`).
- The relay's rooms stay well formed, every group non-empty and every connection in one group
  at most (`server::lemma_rooms_stay_wf`); joining a group changes the room
  (`server::lemma_join_changes_room`); a close takes the connection out of its group only
  (`server::lemma_close_leaves_group`); a ratchet's length after a run of calls is one more than
  the largest link processed (`client::ratchet::lemma_fresh_len_after_run`); a store's messages stay in time order
  (`client::store::lemma_msgs_time_ordered`).
