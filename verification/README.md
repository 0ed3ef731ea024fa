# adb-on

A small desktop helper that finds or prepares Google's ADB tool and connects
Android phones over USB or Wi-Fi.

The library under `src/` holds the logic. Its functions carry contracts that
Verus proves; the few calls into `std` and outside crates (`sha2`, `zip`,
`serde_json`, `directories`) stand behind small trusted functions whose
contracts are believed, not proved:

- `text`: whitespace, lines, words and substring search on characters.
- `address`: the `IP:port` syntax and the canonical text of addresses.
- `model`: `adb devices -l` and `adb mdns services` output, typed addresses
  and pairing codes.
- `adb`: the ADB server's host protocol (frames, version query, device-list
  notifications) and the `adb` commands the program runs.
- `setup`: where ADB is looked for, the data folder, and the checks on a
  downloaded Platform-Tools archive.
- `i18n`: languages, translations and notices.
- `worker`: the status screen and the decisions of the background loop.

`app/` is the program around it: processes, sockets, files, downloads and a
console front end.
