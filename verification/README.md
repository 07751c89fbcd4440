# poe_alarm

Rule matching for Path of Exile item affixes, verified with Verus.

- `src/` is the verified library:
  - `text`, `decimal`: character and exact-decimal primitives;
  - `classify`, `sections`, `item`: the clipboard item dump, its sections
    and its modifier groups;
  - `matching`: full-line template matching of affix lines;
  - `rules`: rule-set validation, compilation and evaluation, with the
    one-modifier-one-condition assignment proved maximum;
  - `monitor`: what one reading decides and the session lifecycle;
  - `item_text`, `lab`, `polling`, `clipboard`, `stats`: the clipboard field
    harness's parsing, verdicts, polling decisions and latency bookkeeping;
  - `editor`, `view_state`, `ocr_language`: workbench input, status words and
    recognizer language choice;
  - `library`, `hud_placement`: the personal rule library's limits, checks
    and merging, and which display the status window belongs to;
  - `gray_image`: the intensity image handed to the recognizer, and the
    check of the bitmap plane it is copied into.
- `tests/` exercises the library from outside.
- `app/` is the unverified shell: the monitor's threads and clock, the rule
  store's JSON form, the harness's flags and per-click loop, and the
  floating-point latency summaries and window positions.
