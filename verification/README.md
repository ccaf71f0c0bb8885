# squircle-icon-rs

Application icon processing for desktop launchers: finding an icon by name in
the freedesktop icon themes, decoding and resizing it, framing it in an
Apple-style squircle plate, caching the result, and embedding it as a PNG data
URI or an SVG document.

The logic is written in Verus and proved against its contracts.

## Layout

- `src/` — the verified library.
  - `lookup.rs`: search roots from the XDG environment, candidate names,
    extensions, path joining.
  - `search.rs`: the icon search as an ordered program of file system probes
    (`search_program`), its meaning for any answers of the file system
    (`runs`), and `resolve_icon_uncached` / `resolve_icon`, proved to return
    what that program gives.
  - `cache.rs`: the in-memory render and lookup caches.
  - `disk_cache.rs`: FNV-1a, cache keys and file names, the cache blob format.
  - `base64.rs`, `bitmap.rs`: base64, `IconBitmap`, data URIs and SVG markup.
  - `profile.rs`: pixel measurements of an icon's silhouette (bounds, edges,
    corners, card spans, rim and dark plate colors).
  - `plate.rs`: themes, matting strategies and the plate plan.
  - `raster.rs`: decoding and resizing raster images into pixmaps.
  - `pixmap.rs`, `text.rs`: the `tiny_skia` pixmap and string building blocks.
- `app/` — the unverified shell: environment and file system access, SVG
  rendering with `resvg`, the floating-point classification and painting of
  the plate, and the global engine with its lock.
- `tests/` — tests of the library.
- `extras/float_checks.py` — exhaustive comparisons of the f32 colour
  arithmetic with the integer formulas the library uses instead.
