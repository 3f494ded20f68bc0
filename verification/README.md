# Enargeia

An entity-resolution engine that turns open feeds into a resolved, time-aware, human-corrected
world model: a verified library, and a program around it.

The engine ingests items from many sources, resolves the mentions in them into canonical
entities, and answers questions from the resolved graph rather than from raw documents. The
library holds everything that decides or computes, written in Verus with contracts that say what
each function returns; the program holds what talks to the disk, the network and the clock.

## Layout

| Path | What it holds |
|---|---|
| `src/world.rs`, `src/models.rs` | The world model: items, entities, keys, edges, mentions, human decisions, coordinates |
| `src/extract.rs`, `src/ground.rs` | Mentions in a text; whether a text supports a relation |
| `src/block.rs`, `src/matcher.rs` | Which entities a mention meets, and how well each matches |
| `src/resolve.rs` | Ingestion, resolution, decorrelation, merging, expiry, bi-temporal relations, review decisions |
| `src/llm.rs`, `src/llm_enrich.rs` | Settings and replies of a language model; what it proposes, re-checked by the matcher |
| `src/context.rs`, `src/why.rs`, `src/dossier.rs` | The graph around a question, the provenance of an entity, a profile of it |
| `src/watch.rs`, `src/mission.rs` | The standing watch and its digest; missions and their briefs |
| `src/audit.rs`, `src/eval.rs` | Re-checking stored relations; measuring the matcher and the decorrelation guarantee |
| `src/auth.rs`, `src/server.rs` | Scoped tokens and quotas; who may do what, and what is listed |
| `src/geo.rs`, `src/adapters/` | The gazetteer and geocoding; feeds, pages and searches as items |
| `src/text.rs`, `src/order.rs`, `src/table.rs`, `src/double.rs`, `src/json.rs`, `src/hash.rs` | Text, order, tables, floating-point values as bits, documents, fingerprints |
| `tests/` | Tests of the library |
| `app/` | The command line, the database, fetching, the HTTP surface, and what is floating point |

## How to read the contracts

Every row type has a ghost model, and every function speaks of the models: `World` is viewed as
the sequences of its tables. Identifiers and times are drawn in one place (`world::stamp`). A
function that needs them comes twice: once with the stamps as arguments and an exact contract
(`create_entity_as`), and once drawing them itself, with the same contract for some stamps.

What the library takes from other crates (SHA-256, Jaro-Winkler, Double Metaphone, regular
expressions, XML events, archives, dates, JSON lists) stands behind small wrappers, each with a
comment on what is relied on. Weights and scores are whole millionths; other floating-point values
are kept as their bits and compared by value.

The promises that span functions are public proof functions whose names begin with `law_`. Some
of them: what a human decorrelated stays so (`resolve::law_decorrelation_is_sticky`), no merge is
proposed against a decorrelation (`resolve::law_merge_respects_decorrelation`), of an exclusive
relation each place has one valid holder at a time (`resolve::law_one_holder_at_a_time`), the
order of arrival does not rewrite history (`resolve::law_arrival_order_is_irrelevant`), context
confirms a match but never makes one (`matcher::law_context_confirms_only`), what is touched lives
thirty days on (`resolve::law_touch_moves_expiry`), reasoning runs over what is live
(`context::law_slice_is_live`).
