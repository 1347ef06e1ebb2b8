# cheat_ccv3_pp

Verified integer side of a strain-based difficulty model.

- `src/sections.rs`: grouping of 400 ms strain peaks into 15-second and
  one-minute local sections (38 and 150 peaks), with proofs that the sections
  tile the peaks.
- `src/marathon.rs`: streaks of similar consecutive minutes and when the
  marathon decay divisor doubles.
- `src/window.rs`: which earlier hit objects a sliding window or an aim
  evaluation reads.
- `app/`: the floating-point computations (star ratings, decay weights, aim
  strain evaluators) built on the library.
