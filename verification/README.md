# wmp_modern

The verified core of a Windows music visualizer. `src/` is a Verus library:

- `audio` — which audio sessions are offered as capture sources: filtering of system
  processes, merging per process id, display names, ordering.
- `capture` — the integer side of loopback capture: whole frames, stereo sample words,
  overlapping analysis windows, waveform decimation.
- `smtc` — which media session is followed: normalization of executable names and
  application user model ids, the chosen target, the session pick.
- `now_playing` — the "now playing" record, the poller's cache and its snapshot, error
  texts and cover-art data URLs.
- `text` — character-level helpers (trim, suffixes, ASCII case folding, ordering).

`app/` is the Tauri shell: commands, threads, WASAPI and WinRT calls, and the
floating-point analysis (window, FFT, RMS).
