# beats

A practice-track editor: it shows the waveform and the spectrogram of a recording, stretches
parts of it in time, plays it back at any rate, and exports it as audio or as a piano-roll video.

The library in `src/` holds the editor's logic, verified with Verus. Samples and times are
carried as IEEE bit patterns: the library moves, orders, counts and compares them, and turns them
into whole numbers; sums and products are left to the application.

| Module | What it does |
|---|---|
| `bits`, `convert`, `text`, `order`, `lists` | order of floating-point values, their whole numbers, decimal text, stable sorting and binary search, filtered sequences |
| `audio::decode` | cache paths and freshness, track parameters, decisions of the decoding loop |
| `audio::pcm_cache`, `audio::peaks_cache`, `audio::words`, `audio::base64` | the two cache file formats, little-endian numbers, base64 |
| `audio::peaks`, `audio::stft`, `audio::scan` | waveform peaks, analysis windows, decoding runs |
| `audio::stretch`, `audio::layout`, `audio::warp` | planning and assembling stretched audio, interleaving, the two timelines |
| `audio::playback`, `audio::engine` | the audio callback's decisions, the engine's state |
| `ffmpeg`, `project` | command lines and messages, project files |
| `video::keyboard`, `video::rng` | keys and their places, per-note randomness |
| `video::scene`, `video::frame`, `video::canvas`, `video::export` | what a frame shows, its pixels, running an export |

Public proof functions named `law_*` state what holds across functions: that caches read back
what was written, that peaks found packet by packet are those of the whole audio, that stretching
that changes nothing gives the audio back, and so on.

The application in `app/` adds files, decoders, filters and spectra, the audio device, drawing,
ffmpeg and the commands of the front end.
