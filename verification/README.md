# launchr

A Wayland application launcher. Type a few letters, pick an application, and it
starts; what is launched often moves up in the list.

- `src/` is the library, verified with Verus: matching (`matcher`), weighing
  and ranking (`weight`, `rank`, `order`), the catalog of what can be launched
  (`apps`), the launch counts (`usage`), the settings (`config`, `cli`,
  `startup`), the course of a screen capture and the blurred backdrop
  (`capture`, `blur`), and what the window shows (`ui`). `text`, `number` and
  `path` hold what these share.
- `app/` is the program around it: GTK, GIO, the Wayland connection, files, the
  environment, and the floating point of the popularity bonus.
- `tests/` runs the library.

Opacities are carried as the bits of a double, and field weights as parts of
2^25, so that the library computes with integers alone and still agrees with
floating point bit for bit.
