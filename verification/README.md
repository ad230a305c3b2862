# x-notify-service

A local notification service: a web page posts a notification to
`127.0.0.1`, and the service shows it in a top-most popup in the
bottom-right corner of the screen, or as a system notification where no
popup can be shown.

```
GET  /health → {"app":"x-notify-service","version":"0.1.0","port":17320}
POST /notify → {"ok":true,"via":"popup"|"system"}
     body: {"title":"required, at most 200 characters", "body":"optional, at most 2000 characters, HTML subset"}
```

## Layout

- `src/` — the library, verified with Verus:
  - `html/` — the body's HTML subset: tags, attributes and entities
    (`parse.rs`, `attr.rs`, `entity.rs`), line breaking by estimated width
    with kinsoku and a four-line cap (`wrap.rs`), and the markup of each
    popup line (`markup.rs`);
  - `api.rs` — requests, responses and the request checks;
  - `server.rs` — ports tried, routes, CORS headers, body limit;
  - `config.rs` — settings in force (command line, file, default);
  - `notify.rs` — the pending-popup queue and the choice of channel;
  - `screen.rs`, `window_icon.rs` — X11 property data (work area, icons,
    client list);
  - `user_path.rs` — the Windows user `Path` value;
  - `protocol.rs` — what registering the `x-notify://` scheme writes;
  - `single.rs`, `popup.rs`, `text.rs` — port file, window reuse, text
    helpers.
- `app/` — the program: command line, files, HTTP, GUI and platform calls.
- `tests/` — tests of the library.
