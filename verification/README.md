# TouchMonitor server

Shows a monitor of a Windows desktop on a tablet and brings the tablet's touches
back. The server captures the monitor, encodes it as H.264 and streams it over the
network or a USB cable; touches come over the same connection and are injected as
a synthetic pointer device.

## Layout

- `src/` is the library, verified with Verus. It holds what can be decided on plain
  values.
  - `protocol`, `udp`, `bytes`: the messages and datagrams on the wire.
  - `touch`: from normalized coordinates to pixels, and the transitions of each
    finger.
  - `color`, `rounding`, `annex_b`, `encoder_mft`: pixel conversion, exactly as double
    precision rounds, stream format, and the dialogue with the operating system's
    encoder.
  - `encoder`, `openh264_api`: encoding in software, by OpenH264.
  - `capture`: monitors and captured frames.
  - `stream`: what a session does with messages and frames.
  - `service`, `usb`: registration with Bonjour, and the USB tunnel.
  - `options`, `text`: the command line.
- `app/` is the program around it: sockets, threads, and the calls of Windows.
- `tests/` runs the library.

Coordinates are held as the bits of single precision numbers. The contracts speak of
the fractions that these stand for.
