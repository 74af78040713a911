# cyeam_api

Lookup of Han characters by their components, with pinyin, radicals, stroke counts and phrases: the
library behind the public API of `api.cyeam.com`, verified with Verus.

- `src/` is the library. Its functions are proved against the contracts that stand with them; what
  holds of a search as a whole is stated by the `law_` functions, most of them in `laws.rs` and
  `api.rs`.
- `tests/` runs the library on concrete values.
- `app/` is the service around it: the HTTP routes, the JSON of the replies, and the export of
  traces and metrics. It reads the data files from the directory `data` when it starts.

What is trusted without proof: `String::push` (`text.rs`) and `char::from_u32` (`codepoint.rs`) of
the standard library, and the table of the `pinyin` crate (`reading.rs`).

The partial matches of a search are ranked by the number of their components. Matches with equally
many components come in the order in which a hash set hands them out, which differs from one run to
the next; the contract of `Dictionary::search` allows every such order.
