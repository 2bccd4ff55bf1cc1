# mindcub3r

The logic of a Rubik's-cube-scanning robot built on ev3dev, verified with Verus.

- `src/color_resolver.rs`: assigns each of the 54 scanned facelets one of six reference
  colors so that every color is used exactly nine times and the total squared RGB distance
  is least. Each rebalancing step moves faces along one chain from an over-quota to an
  under-quota color, from any consistent starting assignment; from the nearest-color start the
  chains are cheapest ones, and the potentials that the steps carry certify optimality
  (`src/balance.rs`).
- `src/calibration.rs`: reads and writes the calibration file (`name: r, g, b` per color);
  what is written reads back unchanged.
- `src/scan.rs`: the sequence of robot moves that measures the six sides, where each reading
  lands on the cube (read from a `phf` map of facelets), averaging a side, and the platform's
  motor target, with the platform's position after a side (+1080) and after the whole
  sequence (+6750).
- `src/presence.rs`: deciding from successive distance readings that a cube is present.
- `app/`: the program that drives the motors and sensors (ev3dev-rs, tokio) and does file I/O.
