# stereo_measure

A stereo-camera measurement tool: a dual UVC camera delivers side-by-side
frames, the tool splits them into left and right views, computes
block-matching disparity, refines chessboard corners, matches clicked points
between the views and keeps the saved calibration images numbered.

- `src/` is the library, verified with Verus: image buffers (`raster`),
  disparity (`stereo`), device discovery and frame handling (`camera`),
  the pictures shown to the user (`display`), the point search
  (`reconstruct`), the corner search and pair rule (`calibration`) and the
  names of saved images (`files`).
- `app/` is the web server around it: ffmpeg, the file system, HTTP, and
  the floating-point camera model (calibration parameters, triangulation,
  point clouds).
- `tests/` runs the library on concrete inputs.

The server serves `static/index.html` and `static/tutorial.html` from the
working directory.
