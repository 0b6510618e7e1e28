# blit

The verified kernel of the blit UI toolkit: the integer logic that decides
what is drawn, where and when, with contracts proved by Verus.

- `cache`: a least-recently-used list and a weighted cache over hashbrown.
- `command_list`, `damage`, `repaint`: resolved draw commands, the bounded
  Myers diff that turns two frames into damage rectangles, and the repaint
  strategies that render that damage.
- `scanline`, `clip`, `rounded`: row spans of damage, active commands,
  occlusion, clip stacks and anti-aliased rounded-rectangle edges in fixed
  point.
- `interact`: widget identity, pointer ownership, hover, focus and scroll.
- `image`, `image_store`: image data and the renderer's image slots over
  slotmap.
- `animation`, `color`, `input`, `frame`, `geometry`, `layout`, `container`,
  `element`, `resource`: the small value types the rest works with.

`app/` holds what works in floating point (easing, transitions, logical
geometry and radii) and the process-wide id counters.
