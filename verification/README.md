# fractal_worker

The logic of a fractal viewer, verified with Verus: the row-major grids that hold rendered
cells, what panning, zooming and resizing do to them, how a rendered picture is drawn onto an
RGBA screen, the render workers' state machines (which results they keep, how they count
progress, which positions they hand out), mouse dragging, the configuration and the parsing of
plugin options.

- `src/` is the verified library.
- `tests/` runs it on concrete values.
- `app/` is a headless program around it: it loads fractal and colour plugins (or uses the
  built-in Mandelbrot set and grey colouring), renders on a thread pool, reads and writes YAML
  configuration files and saves the picture as a PNG file.
