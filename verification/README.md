# earworm

Hum a tune, get the song name: query by humming, with the discrete
decisions of the pipeline verified by Verus.

- `src/` is the verified library. Pitch values are carried as IEEE 754
  binary32 bit patterns (`binary32`), which the library only orders and
  compares. It holds the YIN lag choice and framing (`pitch`), median
  smoothing (`smoothing`), note segmentation (`notes`), the melodic contour
  (`contour`), MIDI reading through `midly` after a check of the file's
  header chunks (`chunks`), note pairing and top-line
  extraction (`midi`), ranking and candidate selection (`sorting`,
  `selection`), the learned-hums file (`hums`), device choice (`devices`)
  and note and instrument names (`naming`).
- `app/` is the command-line program: microphone capture (`cpal`), WAV files
  (`hound`), and the floating-point arithmetic (YIN difference function,
  semitone conversion, octave correction, DTW), plus the browser entry
  points.
- `tests/` runs the library on concrete values.
