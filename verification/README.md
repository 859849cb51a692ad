# data_merge

Merges the field data of a traffic survey at Jordan Pond: QR cards handed out at the
entrance and collected at the exit, clicker counts, missing cards, hours of card
distribution and the weather of each day. It pairs entrances with exits into visits
(fully observed or censored), lists the logged entrance and exit timestamps, and counts,
minute by minute, the research periods by weather and weekday.

- `src/` is the library, verified with Verus: the sheet models (`model`, `clock`), cell
  readers (`text`, `parsers`, `activity_list`), the per-card records and their stable
  ordering and pairing (`card_data`, `pairing`), the card distribution sheet
  (`card_distribution`), the clicker counts (`clicker_data`), the gathering of days
  (`dates`) and the output tables (`output`).
- `app/` is the program: it reads the CSV and text files, calls the library, and writes
  the CSV tables.
- `tests/` runs the library on concrete data.
