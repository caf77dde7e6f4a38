# labworks

A verified library of small text, character and arithmetic utilities, and the
decision logic of two programs built on them: a folder/FTP synchroniser and a
line-driven command terminal.

* `src/` — the library, verified with Verus:
  * `chars`, `overflow`, `primes` — character classification and conversion,
    overflow-checked arithmetic, trial-division primality and the next prime;
  * `text`, `builder`, `textproc` — splitting, trimming and word extraction over
    character sequences; building text with grouped integers; longest lines,
    ROT13, abbreviation expansion and hosts-file lines;
  * `students`, `canvas` — `name,phone,age` records, the oldest and youngest
    student, and a 55×100 character canvas;
  * `terminal` — registered commands and what each input line does;
  * `location`, `listing`, `registry`, `sync` — location descriptors, FTP
    listing lines, and the tracker and scan history that decide which version
    of each file is newest, which files vanished, and what each location does.
* `app/` — the command-line front end: console and file I/O, directory walks,
  FTP traffic (`async_ftp`, `tokio`, `walkdir`), JSON records (`serde_json`).
* `tests/` — tests of the library on concrete values.
