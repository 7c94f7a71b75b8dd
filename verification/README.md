# nasty_dx_dumper

A dumper and patcher for the text of Dokapon DX (GameCube), written in Verus.
`dump-all` writes a `.patch` sidecar next to `main.dol` and every event script
(`*.SPT`); a translator repeats each `0xOFFSET` line with English; `patch-all`
writes the translated executable and scripts into an output tree.

## Layout

- `src/` is the verified library. Each public function states what it returns
  in its `ensures`; the laws that relate several functions are public proof
  functions (`lemma_*`).
  - `bytes`, `text`, `sorted_map`: big-endian words, numbers written as
    characters, and a map kept sorted by key.
  - `shape`: the DOL header, and where RAM addresses load from.
  - `constants`: the pointer tables, inline records and notes of the retail
    executable.
  - `ppc`: the PowerPC scan for `lis`/`addi` pairs that build string addresses,
    and rewriting such a pair for a new address.
  - `longname`: the bank of redirected long names and their stubs.
  - `spt`, `pack`: the event-script walker and the packer that writes
    translations into a script.
  - `utils`: the glyph table, the strict encoder, and the sidecar reader.
  - `dol`, `patcher`: relocating translated strings of `main.dol` into an
    appended section and rewriting every reference to them.
  - `script_patch`: one script's translation, refused whole or written whole.
  - `verdicts`: which addresses the code may move, from `text-refs.json`.
  - `dump`, `spt_dump`, `dump_all`: the sidecars.
  - `dol_sidecar`: what the reader takes back from `main.dol`'s sidecar.
- `tests/` runs the library on concrete inputs.
- `app/` is the command line: walking the tree, reading and writing files.
  It reads `Table.txt` and `data/text-refs.json` from the working directory,
  and the assembled patches from `asm/spt_unsigned_offsets.bin`,
  `asm/long_names.bin` and `asm/walker_hooks.txt` (one `ram expect name` line
  per hooked text walker).
