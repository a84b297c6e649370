# halcon-license-fetcher

Finds the installed MVTec products (HALCON, HDevelop, Deep Learning Tool), picks the
matching license files of a month from the license repository, downloads them and
installs them as `license.dat`, rotating older backups; it can also run as a Windows
service that repeats this at a fixed interval.

Layout:

- `src/` — the library, written in Verus with its contracts proved:
  - `text.rs`: substring search, suffixes, splitting, `u32` parsing, ASCII case folding;
  - `paths.rs`: equality of installation paths by their components (drive letters up to
    case), and the final component of a path read piece by piece;
  - `version.rs`: numeric parts of version strings and their order;
  - `ordering.rs`: stable descending sort as a function of its input, with its laws;
  - `detect.rs`: product kinds from directory names, versions, product lists;
  - `github.rs`: repository listings, month folders, Base64 file contents;
  - `license.rs`: which license files a product needs;
  - `install.rs`: installation steps, backup rotation, merged license bundles;
  - `check.rs`: month choice, configured installation roots, the download cache;
  - `service.rs`: the service's waiting time.
- `tests/` — tests of the library.
- `app/` — the program: command line, HTTP requests, file system and service control.
