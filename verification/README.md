# Embedded language server

A language server whose symbols come from a database. A query, given in a signed
configuration file, lists the symbols; the server tells what a symbol means, shows
its definition in a file, and finds it in documents and in other definitions.

The library under `src/` holds what the server decides and computes, with its
contracts, which [Verus](https://github.com/verus-lang/verus) proves:

| module | what it holds |
| --- | --- |
| `text`, `search`, `sort`, `gather` | offsets in UTF-8 and UTF-16, searching and replacing, a stable sort |
| `config` | the configuration and its signature |
| `rope`, `documents`, `paths` | the text of open documents, edits, and the paths of URLs |
| `ident` | the identifier under the cursor |
| `symbols`, `located` | the table of symbols, and the files that show definitions |
| `occurrences`, `references`, `tokens` | where symbols occur, and how a client is told |
| `fuzzy`, `lookup` | search for symbols and completions |
| `state`, `server`, `requests` | what the server knows, and what it answers |

Calls into other crates stand behind small functions whose contracts are believed;
each says in its doc comment which function it calls and what is claimed of it.
Functions whose names start with `law_` state what holds of the library as a whole.

The program under `app/` reads files, asks the database and speaks the protocol.
It is built with the secret that signatures are made with in `SECRET`.

```sh
$ embedded_language_server sample-config > my_config.toml
$ embedded_language_server sign my_config.toml
$ embedded_language_server lsp my_config.toml
$ standalone lsp cache_dir
```
