# gmcl_speech

A clientside Garry's Mod module that listens to the local player and calls back
when a registered phrase is heard.

- `src/` is the library, verified with Verus: the normal form of phrases
  (`text`), the trigger table with its cooldowns (`triggers`), the functions of
  the `speech` table (`commands`), the queue of events (`queue`), the matching of
  words and bigrams (`matcher`), the captured audio (`audio`), the worker's
  decisions (`worker`) and the voice hooks (`voice`). The modules that end in
  `_laws` hold what is proved of them together.
- `app/` is the module around it: the Lua glue, the capture with cpal and the
  decoding with whisper.
- `tests/` runs the library.

Times in the library are nanoseconds of one monotonic clock. Samples and
cooldowns are of the caller's types; the arithmetic on them is the caller's too.
