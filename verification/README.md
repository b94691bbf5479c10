# geckodoodad

Extracts Gecko codes (cheat codes for GameCube and Wii games) from a page of text, reads each
code's header, authors, description, lines of code and code words, works out the memory
addresses the codes touch, and reports the addresses that several codes share.

Layout:

- `src/` — the verified library (Verus).
  - `text.rs`: text as sequences of characters; whitespace, trimming, lines, words, search,
    split and replace, each stated as a spec function.
  - `pattern.rs`: the character classes and line shapes of the code format.
  - `hexnum.rs`: reading and writing hexadecimal numbers.
  - `gecko.rs`: `GeckoCode` and reading one code from its block of text.
  - `blocks.rs`: cutting a page into code blocks, decoding entities, dropping repeated
    blocks, reading all codes.
  - `address.rs`: `HexAddress`.
  - `order.rs`: the order of texts and sorting.
  - `duplicates.rs`: the addresses shared by codes with different headers.
  - `report.rs`: the markdown reports, reading a report back, grouping addresses by codes.
  - `page.rs`: the source text of the wiki page, taken from the edit box of its HTML.
- `tests/` — tests on concrete inputs.
- `app/` — the program: reads a file or fetches the wiki page, writes the results to disk.
