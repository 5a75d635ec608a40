# fly_on_the_wall

The rules behind *Fly on the Wall*, a game about being a fly loose in a
family's house, as a library whose every function is proved to do what its
contract says.

The game draws with an engine and flies on floating point; neither is here.
What is here is everything it decides: which house to build and how its walls
follow from the plan, which rooms a fly can reach, what a person's movements
are called and which one they play, the title screen, the pause menu and the
camera's switches, the arrangement file, the screenshot names, the names of
the rigged fly's bones, and the two small number generators.

| | |
|---|---|
| `src/text.rs` | reading names character by character: prefixes, trimming, cutting, case, order, numbers |
| `src/folk.rs` | what a movement is called, the folder of movements in order, which clip plays |
| `src/plan.rs` | what is built along each stretch of a room's edge, which openings belong on it, each run built once |
| `src/grid.rs` | flood fills over a slice of the house: what a fly can reach, and which islands of air are rooms |
| `src/tally.rs` | the commonest wall top, the fullest cushion bin, the biggest rooms |
| `src/stage.rs` | title, dive and play; the pause menu; the camera's switches; arrange mode's selection |
| `src/arrangement.rs` | the arrangement file, read and written, and proved to read back as written |
| `src/blueprint.rs` | which drawn house was asked for, what is installed, what its boxes say |
| `src/camera.rs`, `src/studio.rs`, `src/capture.rs` | the viewpoint, studio and capture switches |
| `src/rig.rs` | which body the fly wears; its leg and wing bones |
| `src/noise.rs` | a person's whims and the hiss under the buzz |
| `src/world.rs`, `src/door.rs` | what surfaces are made of, where the house came from, the door's three states |
| `app/` | a headless run: reads the switches and files the game reads and reports what it would do |
| `tests/` | the library's tests |
