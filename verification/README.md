# codimd_downloader

Downloads pages of a CodiMD server as HTML files, with the pages they link to and the
files they use from the server's upload directory.

- `src/` is the verified library: the markdown-to-HTML conversion stages (`html`), the
  per-line rules (`line`), headers and tables of contents (`header`), the page list
  (`codimd`), the page-level download steps (`download`), the pairing of the tags the
  conversions write (`balance`), and the text model, pattern counting and pattern
  matching underneath (`text`, `tags`, `matching`). Every function states its result
  over `Seq<char>` models; pattern matching goes through the `regex` and `wildmatch`
  crates.
- `app/` is the desktop program around it: the window, the settings file, the network
  requests for the page list, and the files and folders written.
- `tests/` runs the library on concrete pages.
