# cert_readme

Generates `README.md` and `README_RU.md` for a gallery of certificate images
kept under `certificates/<platform>/...`, with the generating logic verified
by Verus.

- `src/` is the verified library:
  - `text`: building strings, whitespace trimming, lowercasing, decimal
    numbers, lexicographic and name order;
  - `path`: file names, stems, extensions, supported image formats, hidden
    entries, URL-encoded repository paths;
  - `naming`: `<title>_<page>` file names;
  - `markdown`: Markdown and HTML escaping, GitHub heading anchors;
  - `model`: platforms, certificates, pages and the two languages;
  - `sort`, `order`: a stable sort and the display order of pages,
    certificates and platforms;
  - `scan`: from walked directory entries to sorted platforms;
  - `counts`: every image found becomes exactly one page;
  - `readme`: the README text;
  - `config`: the settings and their check.
- `app/main.rs` walks the directory, writes the files and prints a summary.
- `tests/` runs the library on concrete inputs.
