# wattea

Battery consumption tracking for Linux laptops: a terminal dashboard, a
background collector and a UPower history import.

- `src/` is the verified library (Verus): the sysfs, procfs and UPower
  parsers, session segmentation, per-process CPU attribution, the
  dashboard's view state and its text formatting, each with its contract
  and the laws that relate them.
- `app/` is the program around it: file and terminal I/O, SQLite storage,
  the floating-point metrics and the rendering.
- `tests/` runs the library on concrete inputs.

```bash
wattea           # launch the dashboard
wattea import    # backfill past UPower history into the store
wattea daemon    # run the collector (WATTEA_INTERVAL seconds, default 60)
```
