# thesia

The bookkeeping core of a multi-track spectrogram and waveform viewer, written in Verus and
proved against its contracts.

`src/` is the verified library:

- `track` — the list of open tracks (which ids hold a track, the longest one, the channels);
- `greys`, `analysis` — which spectrogram images must be drawn anew, and which windows, FFT
  plans and mel filterbanks the analyzer keeps;
- `stft` — where the frames of a short-time Fourier transform lie;
- `img_mgr`, `mipmap`, `slice` — which cached image serves a view, how it is cropped, which
  request is the latest, and which downscaled copy of a spectrogram is read;
- `envelope` — a constant-time peak hold;
- `colorize`, `axis`, `labels`, `decimal`, `id_ch` — colormap lookup, axis labels, the grammar
  of typed-in time and frequency labels, decimal text and the `"{id}_{ch}"` keys;
- `player`, `playback`, `output_device` — the player's decisions (output configuration, sample
  rate, seeking, idle reports, which host and device to open) and its frame arithmetic and song
  queue;
- `format_info` — the name, bit depth and bitrate shown for an audio file's format;
- `tuple_hasher`, `pow2` — a hasher for small integer tuples and powers of two.

`app/` holds what works on floating-point values or outside types around it: float axis
markers, the mel scale, window functions and box filters, label conversions, and the glue that
hands ndarray images and float positions to the library.

`tests/` exercise the library from outside.
