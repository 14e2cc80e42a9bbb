# transition

Versioned data structures for Rust. `#[versioned(versions("1", "2"))]` on a
struct (or `#[versioned_enum(...)]` on an enum) generates one type per
version (`TestV1`, `TestV2`, ...), each implementing `Versioned`, an enum
over them, and the macros `Test!["1"]` / `TestVariant!["1"]` that name a
version's type. `#[transition::field(versions("2"))]` and
`#[transition::variant(versions("2"))]` restrict a field or variant to some
versions; `#[impl_version(versions(...), structures(...))]` (or `structure = "..."`) copies an impl
once per version, renaming the versioned types in it.

- `src/` is the verified library: version numbers and their decimal text,
  the varint size of a version, which fields and variants each version
  keeps, the names and macro arms generated per version, and the renaming
  inside per-version impls.
- `app/` holds the macro expansion over `syn` items: it builds the
  library's model of an item, and turns the library's plan back into tokens.
