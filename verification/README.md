# Vectify

Vectify turns raster images into vector drawings: it segments an image into flat
regions, traces the borders between them once each, moves those borders onto the
edges that the anti-aliasing implies, fits them with lines, arcs and curves, and
writes the result as SVG, EPS, PDF or DXF. A picker tries settings, renders every
result back, measures it, and keeps the cheapest one that looks the same.

## Layout

- `src/` is the library. Everything in it is verified with Verus.
- `tests/` runs it, from single functions to whole round trips.
- `app/` is the program around it: the command line, the window, files, threads,
  and arithmetic on fractions.

The library works on whole numbers. Settings are kept in billionths, exported
coordinates in units of the last decimal place. Where an algorithm needs a
measurement on fractions (a colour difference, an angle, a least-squares fit) it
takes a callback and asks; a contract then says which questions are asked and what
is done with the answers. Such a callback has to be a function: it accepts every
argument, and what it returns depends on its arguments alone (`src/pure.rs`).

## From pixels to a document

| Stage | Modules |
| --- | --- |
| Images | `raster`, `color`, `filter`, `profile`, `synth`, `artifacts`, `suite` |
| Palettes | `palette`, `quantize`, `cluster`, `centres`, `twotone` |
| Regions | `regions`, `segment`, `components`, `despeckle` |
| Borders | `lattice`, `cracks`, `rings`, `topology`, `area` |
| Contours | `subpixel`, `corners`, `smoothing`, `fitting`, `path` |
| Documents | `trace`, `vectorize`, `model`, `bounds`, `export` |
| Choosing settings | `config`, `tuning`, `search`, `ranking`, `auto`, `picker`, `compare`, `score` |
| Reports and the window | `report`, `session`, `worker` |

What holds of the library as a whole stands beside the code as public proof
functions whose names begin with `law_`: that every border is shared by exactly
two regions, that rings enclose exactly the pixels of their region, that outlines
have no gaps (but where an arc's last point is dropped for being no different from
the one before it), that corners never move, that a threshold moves nothing but
matches, that the search keeps what it was asked to keep and ends, that every
offset in a PDF points at its object.
