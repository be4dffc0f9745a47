# utc_telegram_bot

A Unicode text converter for a Telegram bot, with its logic verified in Verus.

- `src/converter`: character maps (`CharMap`), the transforms built on them
  (`MapTransform`, `Spread`), star-marked ranges (`*text*` transforms only
  `text`), the alphabet table reader and the transform list with its exact
  and fuzzy lookups (`TransformList`).
- `src/bot.rs`: what the bot answers: request splitting, inline-query
  results, thumbnail addresses, chat replies.
- `src/manifest.rs`: the image manifest (file name to SHA-256 hash).
- `src/generate_images.rs`: thumbnail file names and manifest entries for a
  renderer.
- `app/`: the program: command line, Telegram client, database, web server,
  manifest files on disk and the cairo renderer (feature `renderer`).

The program reads its alphabet table at start-up (`--alphabets`, default
`alphabets.txt`): one line per transform, its name, a tab, then the
substitutes for the characters `!` to `~`.
