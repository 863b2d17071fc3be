# lanparse

A grammar-driven sentence parser. Grammars in the LAN notation describe parts
and their production rules; dictionaries list the words of each category; the
parser reads a sentence as the grammar's `main` part and builds a syntax tree.

```text
PART NaturalNumber
    # :n | meaning of the nth parameter (zero-based)
    RULE number     *numeric ?$NaturalNumber
    IF :0 value
        RULE ...
    END
    IF :0 ~ value1 value2 value3
        RULE ...
    END
    UNLESS :0 value
        RULE ...
    END
    SET zerozero 0-zero 0-zero
    RULE hundred 1-one %zerozero
END
```

A node is `$Part` or `$Part( a b )` (a part with parameters, missing ones read
as `0`), `*category` or `*category[conditions]` (a dictionary word),
`%alias` (the nodes of a `SET`), or `text-name` (a literal). `?` makes a node
optional; `[:n=foo]` (or `[:n~foo]`) keeps it only when parameter `n` is (or
is not) `foo`; only the marked node is conditional. An `IF` block applies when
the parameter is its value, or one of the values listed after `~`; an `UNLESS`
block when it is none of them.

A dictionary has one entry per line: `PART category` opens a category, every
other line is a word followed by its attributes.

## Layout

- `src/` — the library, written in Verus and verified:
  - `lan.rs` — `Parser` (grammar sources and a dictionary) and `RefParser`
    (parsing sentences);
  - `lanparser.rs`, `lan/lanparser.rs` — reading grammars;
  - `concrete.rs` — a part's rules for given parameter values;
  - `lan/dictionary.rs` — reading dictionaries and looking words up;
  - `lan/parse.rs`, `lan/parse/fit_rules.rs` — matching rules against a
    sentence, with results remembered per sentence;
  - `lan/parse/syntree.rs` — syntax trees and their printed forms;
  - `assembling.rs`, `assembling/hangul.rs` — preparing sentence text, and
    splitting and composing Hangul syllables;
  - `dictionary.rs`, `lanparser/declaration.rs`, `parse.rs`, `parse/*` — the
    data model and tree of the first parser generation;
  - `table.rs`, `text.rs` — name-keyed tables and character-level text helpers.
- `tests/` — tests of the library.
- `app/` — the command-line program: `lanparse --spec a.lan,b.lan --dict
  d.dic DOC` prints each line of `DOC` with `VALID` and its tree, or `INVALID`.

## What is proved

Among others: every parse result reads no further than the sentence, is a
category, and its morphemes spell out what was read, up to blanks; each
category in it is named after a rule of the grammar, and each morpheme is a
word of the dictionary category it is named after or a literal of the
grammar; reading a
grammar or a dictionary gives exactly what the line-by-line reading rules
describe, and sources read in turn equal their joined text; a part made
concrete for parameter values has the rules that its `IF`/`UNLESS` blocks,
conditions and aliases select; composing the jamo of a Hangul text gives the
text back.
