# webscraper

The verified core of a small web crawler that fills a PostgreSQL search index.

- `src/` is the library, verified with Verus:
  - `address`: absolute URLs (parsing and joining through the `url` crate);
  - `text`: pattern removal, the clean-up of page text, the cut of the stored text;
  - `body`: collecting a response body up to its size limit;
  - `html`: what is read out of a page through the `select` crate;
  - `linkset`: URL sets in ascending order of serialization;
  - `page`: the plan of what is stored for a scraped page;
  - `stats`: the crawl counters and the periodic report.
- `tests/` runs the library on concrete pages and values.
- `app/` is the program: options, the database, HTTP fetching and the task loop.
