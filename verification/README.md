# scrape_rs

A small multithreaded web-scraping library whose logic is verified with Verus.

- `src/` — the verified library:
  - `structs` — jobs, their status, the FIFO job queue with stop signals,
    the thread-count check and the numbering of a batch's jobs;
  - `fetch_state` — the board on which a batch's results are collected,
    drained as they arrive, or taken in URL order;
  - `request` — request planning (methods, body, `Content-Type`, 405) and the
    default `ureq` agent;
  - `parsers` — CSS-selector queries over HTML, through `scraper`;
  - `quotes` — quotes of pages laid out like quotes.toscrape.com.
- `app/` — the threads, locks and network I/O around it: the shared queue and
  workers, `fetch_many`, `init_worker_pool`, `FetchHandle`, `fetch_link`, and a
  demo program.
- `tests/` — tests of the library on concrete values.
