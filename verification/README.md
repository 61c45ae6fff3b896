# raycasting

A first-person maze game in the style of early ray casters: a level is read
from a text file, rendered column by column with textured walls, animated
billboard sprites, a minimap, a HUD and menu screens.

- `src/` is the verified library (Verus): the pixel buffer and its drawing
  primitives, the bitmap font, the level text format and the grid queries
  used by movement and by the ray caster, sprite placement by
  farthest-point sampling, the procedurally drawn chest sprite and the
  animation cycle, the texture store, and the menu/HUD texts.
- `app/` is the program around it: window and input (minifb), file and
  image loading, audio (rodio), and everything computed in floating point
  (the ray march, projection, sampling, fades and screen layout).
- `tests/` exercises the library on concrete levels and images.
