# ocelot-nbt

Minecraft's NBT data model and its text form, SNBT, as a library verified
with Verus.

- `src/types.rs`: tag types and their numbers, tags, and compounds (named
  entries kept sorted by name, with no name twice).
- `src/text.rs`: white space, digits in a radix, the decimal form of
  integers, and the order of names.
- `src/snbt.rs`: the SNBT text of a tag (`snbt_text`) and the `Encoder`
  that writes it; string escaping and its inverse.
- `src/snbt/decoder.rs`: reading numbers from SNBT text, with what is not
  read yet (compounds, lists, strings, decimal points) kept out by
  `tag_readable`.
- `app/lib.rs`: tags with `f32`/`f64` values and hash-map compounds, and
  the error type with its messages, converted to and from the library's.

A float or double tag holds the text that Rust's `Display` writes for its
value; turning the number into that text happens in `app/`. Tags compare
as their values do: float texts compare as floats (`NaN` equals nothing,
`0` equals `-0`).
