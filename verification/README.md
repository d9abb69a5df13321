# rds_cgi

The logic of a web based development studio served by a CGI program, with a
web terminal, verified with Verus.

- `src/` is the verified library:
  - `web.rs`: HTML, JSON and URL encoders, path checks, the page menu, cookies,
    time stamps, answer heads and property file text;
  - `param.rs`: request parameters and cookies, URL component decoding;
  - `config.rs`: where settings and project files live, property files;
  - `crossref.rs`: the scanner that finds function definitions and uses in
    Rust sources;
  - `docgi.rs`: the JSON answers and pages of the studio;
  - `modes.rs`: which page a request asks for and the rules of the requests
    that change files;
  - `terminal.rs`: the web terminal's sessions file and aliases;
  - `lookup.rs`: subsystem lookup in a knowledge file;
  - `strmap.rs`, `text.rs`: a last-write-wins string map and string helpers.
- `app/` holds the programs around it: the CGI program, the terminal and a
  converter to UTF-8. They do the file, process and network work, test the
  library's preconditions before its calls, and otherwise hand the library's
  answers on.
- `tests/` runs the library on concrete values.
