# sdif

A verified library for SDIF, a line-oriented structured document format:
parser, canonical serializer and SHA-256 hash, AI projection (`.sdif.ai`),
JSON bridge and schema validation. Every function of the library carries a
contract proved by Verus against a mathematical model of the format.

## Layout

- `src/parser_spec.rs` — the grammar as spec functions (`spec_parse`), and the
  laws every parsed document obeys: exactly one format directive, with
  argument `1.0`, and only known directives; no table over the row limit;
  object nesting within the depth limit; no value over the string length
  limit.
- `src/parser.rs`, `src/scan.rs`, `src/rule.rs`, `src/lexer.rs`, `src/lines.rs`,
  `src/text.rs` — the executable parser, each function proved to compute its
  spec counterpart.
- `src/canonical.rs`, `src/order.rs` — canonical text (stable statement order,
  quoting rules that unquoting inverts, invariance under reordering) and its
  hash; the hash is SHA-256 from the `sha2` crate.
- `src/ai.rs` — the AI projection.
- `src/json.rs` — `JsonValue`, `document_to_json` and `json_to_sdif`.
- `src/schema.rs`, `src/validation.rs`, `src/collections.rs` — schemas built
  from SDIF documents and the diagnostics `validate` reports.
- `tests/` — scenario tests.
- `app/main.rs` — the `sdif` command-line tool (file I/O and `serde_json`
  conversion around the library).

## Trusted items

Verus believes these contracts without proof; each makes one call:

- `canonical::sha256` — `sha2::Sha256::digest` (its result named
  `sha256_digest`, 32 bytes long).
- `text::is_alphanumeric` — `char::is_alphanumeric` (named
  `char_alphanumeric`; exactly the letters and digits among ASCII).
- `rule::escape_debug_text` — `char::escape_debug`, used for non-ASCII
  characters in rule error messages (named `char_escape_debug`).
- `text::push_char` — `String::push`.
- `policy::ExPathBuf` declares `std::path::PathBuf`, which the policy only
  carries.
