# tablecopy

Converts tables drawn with Unicode box-drawing characters (light `┌─┐│`,
heavy `┏━┓┃`, double `╔═╗║`) into Markdown tables or table images.

The library under `src/` is written in Verus; its functions carry contracts
that Verus proves, except two trusted wrappers whose contracts are taken on
trust: `text::push_char` (std's `String::push`) and `image::display_width`
(`unicode_width::UnicodeWidthStr::width`, whose result is named `str_width`).
The modules:

- `text` — whitespace, trimming, `lines` and `join` stated over `Seq<char>`.
- `parser` — finding tables and their cells (`parse_tables`).
- `format`, `converter` — the Markdown text of tables (`format_markdown`,
  `convert_to_markdown`).
- `image` — emoji detection, SVG escaping, column widths, font runs and the
  layout of the image (column edges and the cells drawn, `table_layout`).
- `config` — reading and rewriting the `key=value` settings file.
- `cycle` — what a press of the shortcut converts and into which format.
- `hud` — the text of the on-screen notice and the `--hud` switch.
- `laws` — properties across modules, such as that the Markdown written is
  never read as a box-drawing table again.

`app/` holds the command-line program: clipboard, files, SVG rendering with
resvg, the macOS notice and the shortcut installers.
