# spoko_whisper

A push-to-talk dictation tool: a hotkey starts and stops recording, the audio
goes to a speech-to-text service, and the cleaned-up transcript is pasted into
the application in front.

`src/` is the verified library (Verus):

- `text` — the character model: Unicode whitespace, words, joining, trimming.
- `postprocess` — transcript clean-up (repeated phrases and words), with the
  laws that no word is left three times in a row and the result is trimmed.
- `providers`, `transcription` — provider chosen from the key's prefix, the
  request plan (model, language, prompt within its byte budget, auth scheme)
  and the handling of the reply.
- `config`, `vocabulary` — settings, history (newest first, at most 50),
  import of an older configuration, vocabulary normalisation and learning
  from corrections.
- `state`, `session`, `hotkey`, `tray`, `sound`, `audio` — recording state and
  debounce, the session's state machine, the Right Command tap detector,
  tray appearance, mono mix-down and recorder checks.

`app/` is the desktop shell (Tauri, audio capture, HTTP, files, clipboard);
it calls the library for every decision. `tests/` exercises the library.
