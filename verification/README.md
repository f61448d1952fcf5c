# roland

Tracking logic of a camera program that follows a checkerboard (or a face)
and reports its horizontal position, with Verus proofs.

- `src/geometry.rs`: rectangles, their area and center.
- `src/detect.rs`: which contour boxes may be checkerboard squares, the greedy
  grouping of adjacent squares and the box around the group.
- `src/load.rs`: the binary files of the two camera remap tables.
- `src/track.rs`: the tracker's state machine (follow while held, search once
  lost).
- `app/main.rs`: the program around the library: camera, image processing and
  tracking through OpenCV, the window and the TCP server.
