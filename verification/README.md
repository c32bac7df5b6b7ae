# torrent_scraping

A toolkit for extracting magnet links from websites and for downloading torrents. The library under
`src/` holds its rules and is verified with Verus; the program under `app/` does the I/O.

- `extract` crawls a domain level by level, collects magnet links from page sources and from API
  responses, and writes them to a JSON file.
- `scrape` downloads the torrents of such a list with aria2c, archives them with 7-Zip on request,
  and remembers how far each has come, so that an interrupted session goes on where it ended.

## Modules

| Module | What it holds |
|--------|---------------|
| `crawl` | the crawler: which pages are fetched, which links are followed, what is found |
| `crawl_laws` | what holds of a crawl, however it goes |
| `reach` | which pages a whole crawl visits, and what it finds on them |
| `magnet` | what a magnet link in a page's source looks like |
| `app` | the download manager: its state and how it changes |
| `resume` | what holds from step to step and from run to run |
| `totals` | sums over the running downloads |
| `torrent` | torrent lists, statuses and what is remembered |
| `naming` | what a torrent is called |
| `progress` | what aria2c prints, and what follows from it |
| `aria2`, `archive` | how aria2c and 7z are called |
| `sizes`, `numbers` | byte counts and decimal numerals |
| `ansi`, `failure`, `text` | escape codes, failure messages, strings |
| `config` | settings |
| `trusted` | what is taken for granted of other crates |

The program takes `extract` or `scrape` as its first argument. Under the name `extract` or `scrape`,
as a link or a copy, it is that command by itself.

Numbers with a unit and a fraction, such as `1.2GiB`, are split by the library; their value is
floating point and is computed in `app/`.
