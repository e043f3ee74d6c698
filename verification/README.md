# spellkit

The verified core of a native spell-checking front end (Hunspell on Unix, the
Windows Spell Checker on Windows).

- `src/` — the library, verified with Verus:
  - `chars`: character classes (word characters, white space) and UTF-8/UTF-16 widths;
  - `runs`: maximal runs of characters that satisfy a predicate, with their characterisation;
  - `words`: tokenisation into words with UTF-8 byte ranges, and the selection of misspelled words;
  - `locale`: normalisation of locale names into their Hunspell and BCP 47 spellings;
  - `dictionary`: dictionary search paths (`DICPATH` directories first, then the built-in ones), the choice of the first complete `.aff`/`.dic` pair, fallback locales, the locale named by the environment, and the locales that dictionary files provide;
  - `suggest`: which backend suggestions reach the caller (at most ten), for both the list and the enumerator style of backend;
  - `utf16`: UTF-16 encoding and decoding and the conversion of UTF-16 offsets to UTF-8 ones.
- `app/` — the `Checker` type with its two backends, which make the native calls.
- `tests/` — tests of the library on concrete values.
