# rcard_host

Host-side logic of the rcard tooling, written in Verus. The functions in
`src/` carry contracts that Verus proves, except a small set of trusted
wrappers (marked `#[verifier::external_body]`) around std and outside-crate
calls: `String::push`, `Arc::clone`, `String::from_utf8_lossy`,
`Path::file_name`, `uuid::Uuid::parse_str`, `cobs::decode_vec`, and the zip
archive reads. Their contracts are believed, not proved; each one's doc
comment says what it claims and what it leaves unsaid.

The memory-map layout shares out columns in exact integer arithmetic,
rounding a half column away from zero. A floating-point computation of the
same share (size / total × spare) can fall just below an exact half and
round down instead, so at such ties the two differ by one column.

## Layout

- `src/` — the verified library:
  - `bridge`, `discovery`, `frontend`, `devices`, `physical`, `capability`,
    `handle`, `ipc`, `state`, `ids`, `drag` — the bridge between hardware and front end: flash
    progress and retries, the persistent device registry, USART1/USART2
    sessions, native-USB fobs, the front end's device, adapter, build and
    firmware state, adapters attached to a physical device, dragging
    archives onto the window.
  - `stub`, `provision` — loading the stub firmware over the debug link and
    provisioning over the bootloader.
  - `monitor`, `emulator` — the Renode monitor protocol and the commands
    that set up an emulated device.
  - `logfmt`, `stacktrace`, `sinks`, `text`, `hex` — decoding and printing
    what the device logs, stack unwinding, and the text helpers.
  - `memmap`, `memmap_render`, `measure`, `sizes`, `display` — memory-map
    bars, size reports and what the front end draws.
  - `pipeline`, `archive`, `port_registry` — build progress, firmware
    archives and the configured serial ports.
- `tests/` — tests run against the compiled library.
- `app/` — the command line around the library: file, process, socket
  and serial I/O, JSON with serde, and the composition of a backtrace from
  the library's unwinder and frames with debug-info lookups handed in.
