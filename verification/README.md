# flooglyflup

A tiny search engine in three programs: a crawler that fetches pages and follows their links, a
processor that scores the pages and builds an index, and a web server that answers searches and
suggestions.

`src/` is the library: the rules of the engine as executable Rust, each function with a contract
that Verus proves.

| module | what it holds |
| --- | --- |
| `text`, `numbers` | searching, trimming, splitting, joining and ordering texts; numbers as texts |
| `urls`, `html`, `links` | normal forms of URLs, sites, root domains, and the links of a page |
| `seeds`, `frontier`, `page` | where a crawl begins, its order and limits, what becomes of a page |
| `records`, `batch` | what is stored of a page, one file for each root domain, how files are merged, and their columns |
| `language`, `dates`, `quality`, `document` | what the index keeps of a page |
| `rank` | the graph of links and who votes for whom in it |
| `suggest` | the words of all titles, and which of them complete a prefix |
| `search` | search operators, filters, limits and what is shown of a hit |

Calls into other crates stand behind small trusted functions whose contracts name what the crate
returns; each says in its comment what is believed of it. Scores are floating-point numbers and are
computed in `app/`, which also does all input and output.

`app/` is the program: `crawler`, `processor` and `server` are its subcommands. The processor reads
`high-quality.txt` and `low-quality.txt` from `--data-dir`, one domain on each line; the server reads
`index.html` and `assets/style.css` from `--static-dir`.
